//! Byte-exact Bitcoin transaction pieces: input and output encoding,
//! script builders, witness assembly, signature serialization and the
//! segwit commitment hash (BIP-143 style) each input's signature signs.

use vstd::prelude::*;
use vstd::bytes::{
    spec_u32_to_le_bytes, spec_u64_to_le_bytes, spec_u64_from_le_bytes, u32_to_le_bytes,
    u64_to_le_bytes, u64_from_le_bytes,
};
use crate::bignum::{be_to_nat, be_minimal, lemma_be_minimal_len, lemma_pow256_pow2};
use crate::curve::{gen_v, q_val, lemma_limbs_val_bound};
use crate::adaptor::{presign_r, presign_s, msg_z, sign_defined};
use crate::encoding::{
    compact_size_spec, decode_compact_size_spec, encode_compact_size, decode_compact_size,
    der_sig_spec, der_encoding, append_bytes, valid_hex, hex_bytes, hex_decode,
};
use crate::errors::SwapError;
use crate::hashing::{sha256_of, ripemd160_of, sha256_digest, hash160, dsha256};

verus! {

// ---------------------------------------------------------------------------
// Script builders
// ---------------------------------------------------------------------------
/// Builds a P2WPKH script pubkey: OP_0, then the 20-byte HASH160 of the
/// public key.
pub fn build_script_pub_key_p2wpkh(pub_key: &Vec<u8>) -> (r: Vec<u8>)
    ensures
        r@ == seq![0u8, 20u8] + ripemd160_of(sha256_of(pub_key@)),
{
    let h = hash160(pub_key);
    let mut v: Vec<u8> = Vec::new();
    v.push(0);
    v.push(20);
    append_bytes(&mut v, &h);
    proof {
        assert(v@ =~= seq![0u8, 20u8] + ripemd160_of(sha256_of(pub_key@)));
    }
    v
}

/// Builds a P2WSH script pubkey: OP_0, then the 32-byte SHA-256 of the
/// witness script.
pub fn build_p2wsh_script_pub_key(script: &Vec<u8>) -> (r: Vec<u8>)
    ensures
        r@ == seq![0u8, 32u8] + sha256_of(script@),
{
    let h = sha256_digest(script);
    let mut v: Vec<u8> = Vec::new();
    v.push(0);
    v.push(32);
    append_bytes(&mut v, &h);
    proof {
        assert(v@ =~= seq![0u8, 32u8] + sha256_of(script@));
    }
    v
}

/// Builds a P2WSH script pubkey from a witness script given as hex; the
/// error is EncodingError exactly when the string is not valid hex.
pub fn build_script_pub_key_p2wsh(script: &str) -> (out: Result<Vec<u8>, SwapError>)
    ensures
        out matches Ok(v) ==> valid_hex(script@) && v@ == seq![0u8, 32u8] + sha256_of(
            hex_bytes(script@),
        ),
        out matches Err(e) ==> !valid_hex(script@) && e == SwapError::EncodingError,
{
    let bytes = match hex_decode(script) {
        Some(v) => v,
        None => {
            return Err(SwapError::EncodingError);
        },
    };
    Ok(build_p2wsh_script_pub_key(&bytes))
}

/// Builds the 2-of-2 multisig witness script:
/// OP_2 <keyA> <keyB> OP_2 OP_CHECKMULTISIG, each compressed key pushed
/// with its 33-byte length.
pub fn build_2_of_2_ms_script(sender_pub_key: &Vec<u8>, receiver_pub_key: &Vec<u8>) -> (r: Vec<u8>)
    requires
        sender_pub_key@.len() == 33,
        receiver_pub_key@.len() == 33,
    ensures
        r@ == seq![0x52u8, 33u8] + sender_pub_key@ + seq![33u8] + receiver_pub_key@ + seq![
            0x52u8,
            0xAEu8,
        ],
{
    let mut v: Vec<u8> = Vec::new();
    v.push(0x52);
    v.push(33);
    append_bytes(&mut v, sender_pub_key);
    v.push(33);
    append_bytes(&mut v, receiver_pub_key);
    v.push(0x52);
    v.push(0xAE);
    proof {
        assert(v@ =~= seq![0x52u8, 33u8] + sender_pub_key@ + seq![33u8] + receiver_pub_key@ + seq![
            0x52u8,
            0xAEu8,
        ]);
    }
    v
}

// ---------------------------------------------------------------------------
// Inputs and outputs
// ---------------------------------------------------------------------------
/// One encoded input: the 36-byte outpoint, an empty signature-script
/// placeholder, and the sequence number.
pub open spec fn input_spec(outpoint: Seq<u8>, sequence: u32) -> Seq<u8> {
    outpoint + seq![0u8] + spec_u32_to_le_bytes(sequence)
}

/// The concatenated encodings of a list of inputs.
pub open spec fn inputs_body_spec(outpoints: Seq<Seq<u8>>, sequence: u32) -> Seq<u8>
    decreases outpoints.len(),
{
    if outpoints.len() == 0 {
        Seq::empty()
    } else {
        inputs_body_spec(outpoints.drop_last(), sequence) + input_spec(outpoints.last(), sequence)
    }
}

/// The full input section: compact-size count, then each input.
pub open spec fn encode_inputs_spec(outpoints: Seq<Seq<u8>>, sequence: u32) -> Seq<u8> {
    compact_size_spec(outpoints.len() as u64) + inputs_body_spec(outpoints, sequence)
}

/// Encodes the input section with a given sequence number on every
/// input.
pub fn encode_inputs_with_sequence(outpoint_list: &Vec<Vec<u8>>, sequence: u32) -> (r: Vec<u8>)
    ensures
        r@ == encode_inputs_spec(outpoint_list.deep_view(), sequence),
{
    let n = outpoint_list.len();
    let mut v = encode_compact_size(n as u64);
    let seq_bytes = u32_to_le_bytes(sequence);
    let ghost dv = outpoint_list.deep_view();
    proof {
        assert(dv.len() == n);
        assert(dv.subrange(0, 0) =~= Seq::<Seq<u8>>::empty());
        assert(v@ =~= compact_size_spec(n as u64) + inputs_body_spec(dv.subrange(0, 0), sequence));
    }
    let mut i: usize = 0;
    while i < n
        invariant
            i <= n,
            n == outpoint_list@.len(),
            dv == outpoint_list.deep_view(),
            seq_bytes@ == spec_u32_to_le_bytes(sequence),
            v@ == compact_size_spec(n as u64) + inputs_body_spec(dv.subrange(0, i as int), sequence),
        decreases n - i,
    {
        append_bytes(&mut v, &outpoint_list[i]);
        v.push(0);
        append_bytes(&mut v, &seq_bytes);
        proof {
            let pre = dv.subrange(0, i + 1);
            assert(pre.drop_last() =~= dv.subrange(0, i as int));
            assert(pre.last() == dv[i as int]);
            assert(dv[i as int] == outpoint_list@[i as int]@);
            assert(v@ =~= compact_size_spec(n as u64) + (inputs_body_spec(
                dv.subrange(0, i as int),
                sequence,
            ) + input_spec(dv[i as int], sequence)));
        }
        i = i + 1;
    }
    proof {
        assert(dv.subrange(0, n as int) =~= dv);
    }
    v
}

/// Encodes the input section: compact-size count, then for each input
/// the outpoint, an empty signature-script placeholder and the final
/// sequence number.
pub fn encode_inputs(outpoint_list: &Vec<Vec<u8>>) -> (r: Vec<u8>)
    ensures
        r@ == encode_inputs_spec(outpoint_list.deep_view(), 0xFFFF_FFFF),
{
    encode_inputs_with_sequence(outpoint_list, 0xFFFF_FFFF)
}

/// One encoded output: 8-byte little-endian amount, compact-size script
/// length, script bytes.
pub open spec fn output_spec(script: Seq<u8>, amount: u64) -> Seq<u8> {
    spec_u64_to_le_bytes(amount) + compact_size_spec(script.len() as u64) + script
}

/// The view of an output list: each script as its byte sequence.
pub open spec fn outputs_view(l: Seq<(Vec<u8>, u64)>) -> Seq<(Seq<u8>, u64)> {
    l.map_values(|o: (Vec<u8>, u64)| (o.0@, o.1))
}

/// The concatenated encodings of a list of outputs.
pub open spec fn outputs_body_spec(outputs: Seq<(Seq<u8>, u64)>) -> Seq<u8>
    decreases outputs.len(),
{
    if outputs.len() == 0 {
        Seq::empty()
    } else {
        outputs_body_spec(outputs.drop_last()) + output_spec(
            outputs.last().0,
            outputs.last().1,
        )
    }
}

/// The full output section: compact-size count, then each output.
pub open spec fn encode_outputs_spec(outputs: Seq<(Seq<u8>, u64)>) -> Seq<u8> {
    compact_size_spec(outputs.len() as u64) + outputs_body_spec(outputs)
}

/// Encodes the output section: compact-size count, then for each output
/// the amount, the script length and the script.
pub fn encode_outputs(outputs_list: Vec<(Vec<u8>, u64)>) -> (r: Vec<u8>)
    ensures
        r@ == encode_outputs_spec(outputs_view(outputs_list@)),
{
    let n = outputs_list.len();
    let mut v = encode_compact_size(n as u64);
    let ghost ov = outputs_view(outputs_list@);
    proof {
        assert(ov.len() == n);
        assert(ov.subrange(0, 0) =~= Seq::<(Seq<u8>, u64)>::empty());
        assert(v@ =~= compact_size_spec(n as u64) + outputs_body_spec(ov.subrange(0, 0)));
    }
    let mut i: usize = 0;
    while i < n
        invariant
            i <= n,
            n == outputs_list@.len(),
            ov == outputs_view(outputs_list@),
            v@ == compact_size_spec(n as u64) + outputs_body_spec(ov.subrange(0, i as int)),
        decreases n - i,
    {
        let mut amount_bytes = u64_to_le_bytes(outputs_list[i].1);
        v.append(&mut amount_bytes);
        let mut len_bytes = encode_compact_size(outputs_list[i].0.len() as u64);
        v.append(&mut len_bytes);
        append_bytes(&mut v, &outputs_list[i].0);
        proof {
            let pre = ov.subrange(0, i + 1);
            assert(pre.drop_last() =~= ov.subrange(0, i as int));
            assert(pre.last() == ov[i as int]);
            assert(ov[i as int].0 == outputs_list@[i as int].0@);
            assert(ov[i as int].1 == outputs_list@[i as int].1);
            assert(v@ =~= compact_size_spec(n as u64) + (outputs_body_spec(
                ov.subrange(0, i as int),
            ) + output_spec(ov[i as int].0, ov[i as int].1)));
        }
        i = i + 1;
    }
    proof {
        assert(ov.subrange(0, n as int) =~= ov);
    }
    v
}

/// What decoding one output at a position yields: the script and amount
/// and the position after them.
pub open spec fn decode_output_at_spec(s: Seq<u8>, pos: int) -> Option<((Seq<u8>, u64), int)> {
    if 0 <= pos && pos + 8 <= s.len() {
        let amount = spec_u64_from_le_bytes(s.subrange(pos, pos + 8));
        match decode_compact_size_spec(s.subrange(pos + 8, s.len() as int)) {
            Some((l, c)) => {
                if pos + 8 + c + l <= s.len() {
                    Some(((s.subrange(pos + 8 + c, pos + 8 + c + l), amount), pos + 8 + c + l))
                } else {
                    None
                }
            },
            None => None,
        }
    } else {
        None
    }
}

/// What decoding a run of count outputs yields.
pub open spec fn decode_outputs_rec(s: Seq<u8>, pos: int, count: nat) -> Option<
    (Seq<(Seq<u8>, u64)>, int),
>
    decreases count,
{
    if count == 0 {
        if 0 <= pos <= s.len() {
            Some((Seq::empty(), pos))
        } else {
            None
        }
    } else {
        match decode_output_at_spec(s, pos) {
            Some((o, p2)) => match decode_outputs_rec(s, p2, (count - 1) as nat) {
                Some((rest, p3)) => Some((seq![o] + rest, p3)),
                None => None,
            },
            None => None,
        }
    }
}

/// What decoding a full output section yields: the output count, then
/// that many outputs, consuming every byte.
pub open spec fn decode_outputs_spec(s: Seq<u8>) -> Option<Seq<(Seq<u8>, u64)>> {
    match decode_compact_size_spec(s) {
        Some((n, c)) => match decode_outputs_rec(s, c, n as nat) {
            Some((list, end)) => if end == s.len() {
                Some(list)
            } else {
                None
            },
            None => None,
        },
        None => None,
    }
}

/// Decodes one output at a position.
fn decode_output_at(bytes: &Vec<u8>, pos: usize) -> (out: Result<((Vec<u8>, u64), usize), SwapError>)
    ensures
        out matches Ok(t) ==> decode_output_at_spec(bytes@, pos as int) == Some(
            (((t.0).0@, (t.0).1), t.1 as int),
        ) && pos < t.1 <= bytes@.len(),
        out matches Err(e) ==> decode_output_at_spec(bytes@, pos as int) is None && e
            == SwapError::EncodingError,
{
    let n = bytes.len();
    if pos > n || n - pos < 8 {
        return Err(SwapError::EncodingError);
    }
    let mut ab: Vec<u8> = Vec::new();
    let stop: usize = pos + 8;
    let mut k: usize = pos;
    while k < stop
        invariant
            pos <= k <= stop,
            stop == pos + 8,
            stop <= bytes@.len(),
            ab@ =~= bytes@.subrange(pos as int, k as int),
        decreases stop - k,
    {
        ab.push(bytes[k]);
        proof {
            assert(ab@ =~= bytes@.subrange(pos as int, k + 1));
        }
        k = k + 1;
    }
    let amount = u64_from_le_bytes(ab.as_slice());
    let (l, c) = match decode_compact_size(bytes, pos + 8) {
        Ok(t) => t,
        Err(e) => {
            proof {
                assert(bytes@.subrange(pos + 8, bytes@.len() as int) =~= bytes@.subrange(
                    pos as int,
                    bytes@.len() as int,
                ).subrange(8, bytes@.len() - pos));
            }
            return Err(e);
        },
    };
    proof {
        assert(bytes@.subrange(pos + 8, bytes@.len() as int) =~= bytes@.subrange(
            pos as int,
            bytes@.len() as int,
        ).subrange(8, bytes@.len() - pos));
    }
    let after = pos + 8 + c;
    if l > (n - after) as u64 {
        return Err(SwapError::EncodingError);
    }
    let ll = l as usize;
    let mut script: Vec<u8> = Vec::new();
    let stop2: usize = after + ll;
    let mut k2: usize = after;
    while k2 < stop2
        invariant
            after <= k2 <= stop2,
            stop2 == after + ll,
            stop2 <= bytes@.len(),
            script@ =~= bytes@.subrange(after as int, k2 as int),
        decreases stop2 - k2,
    {
        script.push(bytes[k2]);
        proof {
            assert(script@ =~= bytes@.subrange(after as int, k2 + 1));
        }
        k2 = k2 + 1;
    }
    Ok(((script, amount), after + ll))
}

/// Decodes a run of count outputs starting at a position.
fn decode_outputs_from(bytes: &Vec<u8>, pos: usize, count: u64) -> (out: Result<
    (Vec<(Vec<u8>, u64)>, usize),
    SwapError,
>)
    ensures
        out matches Ok(t) ==> decode_outputs_rec(bytes@, pos as int, count as nat) == Some(
            (outputs_view(t.0@), t.1 as int),
        ) && t.1 <= bytes@.len(),
        out matches Err(e) ==> decode_outputs_rec(bytes@, pos as int, count as nat) is None && e
            == SwapError::EncodingError,
    decreases count,
{
    if count == 0 {
        if pos <= bytes.len() {
            let empty: Vec<(Vec<u8>, u64)> = Vec::new();
            proof {
                assert(outputs_view(empty@) =~= Seq::<(Seq<u8>, u64)>::empty());
            }
            return Ok((empty, pos));
        } else {
            return Err(SwapError::EncodingError);
        }
    }
    let (first, p2) = match decode_output_at(bytes, pos) {
        Ok(t) => t,
        Err(e) => {
            return Err(e);
        },
    };
    let (rest, p3) = match decode_outputs_from(bytes, p2, count - 1) {
        Ok(t) => t,
        Err(e) => {
            return Err(e);
        },
    };
    let mut list: Vec<(Vec<u8>, u64)> = Vec::new();
    list.push(first);
    let mut rest_m = rest;
    let ghost first_view = (list@[0].0@, list@[0].1);
    let ghost rest_view = outputs_view(rest_m@);
    let mut j: usize = 0;
    let rn = rest_m.len();
    while j < rn
        invariant
            j <= rn,
            rn == rest_m@.len(),
            rest_view == outputs_view(rest_m@),
            list@.len() == j + 1,
            outputs_view(list@) =~~= seq![first_view] + rest_view.subrange(0, j as int),
        decreases rn - j,
    {
        let (sc, am) = {
            let entry = &rest_m[j];
            let mut scc: Vec<u8> = Vec::new();
            append_bytes(&mut scc, &entry.0);
            proof {
                assert(Seq::<u8>::empty() + entry.0@ =~= entry.0@);
            }
            (scc, entry.1)
        };
        let ghost old_list = list@;
        list.push((sc, am));
        proof {
            let lhs = outputs_view(list@);
            let rhs = seq![first_view] + rest_view.subrange(0, j + 1);
            assert(sc@ == rest_m@[j as int].0@);
            assert(lhs.len() == rhs.len());
            assert forall|ii: int| 0 <= ii < lhs.len() implies lhs[ii] == rhs[ii] by {
                if ii < old_list.len() {
                    assert(list@[ii] == old_list[ii]);
                    assert(outputs_view(old_list)[ii] == (seq![first_view] + rest_view.subrange(
                        0,
                        j as int,
                    ))[ii]);
                } else {
                    assert(list@[ii] == (sc, am));
                    assert(lhs[ii] == (sc@, am));
                    assert(rhs[ii] == rest_view[j as int]);
                    assert(rest_view[j as int] == (rest_m@[j as int].0@, rest_m@[j as int].1));
                }
            }
            assert(lhs =~~= rhs);
        }
        j = j + 1;
    }
    proof {
        assert(rest_view.subrange(0, rn as int) =~= rest_view);
        assert(outputs_view(list@) =~~= seq![first_view] + rest_view);
    }
    Ok((list, p3))
}

/// Decodes a full output section: the output count, then that many
/// outputs; EncodingError exactly when the bytes are not one complete
/// output section.
pub fn decode_outputs(bytes: &Vec<u8>) -> (out: Result<Vec<(Vec<u8>, u64)>, SwapError>)
    ensures
        out matches Ok(o) ==> decode_outputs_spec(bytes@) == Some(outputs_view(o@)),
        out matches Err(e) ==> decode_outputs_spec(bytes@) is None && e == SwapError::EncodingError,
{
    let (n, c) = match decode_compact_size(bytes, 0) {
        Ok(t) => t,
        Err(e) => {
            proof {
                assert(bytes@.subrange(0, bytes@.len() as int) =~= bytes@);
            }
            return Err(e);
        },
    };
    proof {
        assert(bytes@.subrange(0, bytes@.len() as int) =~= bytes@);
    }
    let (list, end) = match decode_outputs_from(bytes, c, n) {
        Ok(t) => t,
        Err(e) => {
            return Err(e);
        },
    };
    if end != bytes.len() {
        return Err(SwapError::EncodingError);
    }
    Ok(list)
}

// ---------------------------------------------------------------------------
// Signatures and witnesses
// ---------------------------------------------------------------------------
/// Signs a commitment hash and serializes the signature for a witness:
/// the DER encoding of (r, s) with the SIGHASH_ALL byte 0x01 appended.
pub fn sign(private_key: &Vec<u8>, message: &Vec<u8>, nonce: &Vec<u8>) -> (out: Result<
    Vec<u8>,
    SwapError,
>)
    ensures
        out matches Ok(v) ==> ({
            let k = be_to_nat(nonce@);
            let x = be_to_nat(private_key@);
            &&& sign_defined(k, x)
            &&& exists|rb: Seq<u8>, sb: Seq<u8>|
                {
                    &&& be_minimal(rb)
                    &&& be_minimal(sb)
                    &&& be_to_nat(rb) == presign_r(gen_v(), k)
                    &&& be_to_nat(sb) == presign_s(gen_v(), k, x, msg_z(message@))
                    &&& v@ == #[trigger] der_sig_spec(rb, sb) + seq![1u8]
                }
        }),
        out matches Err(e) ==> ({
            let k = be_to_nat(nonce@);
            let x = be_to_nat(private_key@);
            ||| (e == SwapError::ArithmeticError && !sign_defined(k, x))
            ||| (e == SwapError::DegenerateSignatureError && sign_defined(k, x) && (presign_r(
                gen_v(),
                k,
            ) == 0 || presign_s(gen_v(), k, x, msg_z(message@)) == 0))
        }),
{
    let sig = match crate::adaptor::sign(private_key, message, nonce) {
        Ok(s) => s,
        Err(e) => {
            return Err(e);
        },
    };
    proof {
        vstd::arithmetic::div_mod::lemma_mod_bound(
            crate::adaptor::px(crate::curve::pt_mul(gen_v(), be_to_nat(nonce@))),
            q_val() as int,
        );
        lemma_limbs_val_bound(
            0xFFFFFFFF_FFFFFFFF,
            0xFFFFFFFF_FFFFFFFE,
            0xBAAEDCE6_AF48A03B,
            0xBFD25E8C_D0364141,
        );
        lemma_pow256_pow2(32);
        lemma_be_minimal_len(sig.r@, 32);
        lemma_be_minimal_len(sig.s@, 32);
    }
    let ghost rb = sig.r@;
    let ghost sb = sig.s@;
    let mut v = der_encoding(sig.r, sig.s);
    v.push(1);
    proof {
        assert(v@ =~= der_sig_spec(rb, sb) + seq![1u8]);
    }
    Ok(v)
}

/// The concatenated witness items for the signatures, each preceded by
/// its compact-size length.
pub open spec fn witness_sigs_spec(sigs: Seq<Seq<u8>>) -> Seq<u8>
    decreases sigs.len(),
{
    if sigs.len() == 0 {
        Seq::empty()
    } else {
        witness_sigs_spec(sigs.drop_last()) + compact_size_spec(sigs.last().len() as u64)
            + sigs.last()
    }
}

/// A P2WSH witness stack: the item count, one empty placeholder item
/// (for OP_CHECKMULTISIG's extra pop), each signature with its length,
/// and the witness script with its length.
pub open spec fn witness_spec(sigs: Seq<Seq<u8>>, script: Seq<u8>) -> Seq<u8> {
    compact_size_spec((sigs.len() + 2) as u64) + seq![0u8] + witness_sigs_spec(sigs)
        + compact_size_spec(script.len() as u64) + script
}

/// Assembles a P2WSH witness stack from serialized signatures and the
/// witness script.
pub fn build_p2wsh_witness(signatures: &Vec<Vec<u8>>, script: &Vec<u8>) -> (r: Vec<u8>)
    requires
        signatures@.len() + 2 <= 0xFF,
    ensures
        r@ == witness_spec(signatures.deep_view(), script@),
{
    let n = signatures.len();
    let mut v = encode_compact_size((n + 2) as u64);
    v.push(0);
    let ghost dv = signatures.deep_view();
    proof {
        assert(dv.len() == n);
        assert(dv.subrange(0, 0) =~= Seq::<Seq<u8>>::empty());
        assert(v@ =~= compact_size_spec((n + 2) as u64) + seq![0u8] + witness_sigs_spec(
            dv.subrange(0, 0),
        ));
    }
    let mut i: usize = 0;
    while i < n
        invariant
            i <= n,
            n == signatures@.len(),
            dv == signatures.deep_view(),
            v@ == compact_size_spec((n + 2) as u64) + seq![0u8] + witness_sigs_spec(
                dv.subrange(0, i as int),
            ),
        decreases n - i,
    {
        let mut len_bytes = encode_compact_size(signatures[i].len() as u64);
        v.append(&mut len_bytes);
        append_bytes(&mut v, &signatures[i]);
        proof {
            let pre = dv.subrange(0, i + 1);
            assert(pre.drop_last() =~= dv.subrange(0, i as int));
            assert(pre.last() == dv[i as int]);
            assert(dv[i as int] == signatures@[i as int]@);
            assert(v@ =~= compact_size_spec((n + 2) as u64) + seq![0u8] + (witness_sigs_spec(
                dv.subrange(0, i as int),
            ) + compact_size_spec(dv[i as int].len() as u64) + dv[i as int]));
        }
        i = i + 1;
    }
    let mut script_len = encode_compact_size(script.len() as u64);
    v.append(&mut script_len);
    append_bytes(&mut v, script);
    proof {
        assert(dv.subrange(0, n as int) =~= dv);
        assert(v@ =~= witness_spec(dv, script@));
    }
    v
}

// ---------------------------------------------------------------------------
// Segwit commitment hash
// ---------------------------------------------------------------------------
/// The concatenation of a list of byte strings.
pub open spec fn concat_all(l: Seq<Seq<u8>>) -> Seq<u8>
    decreases l.len(),
{
    if l.len() == 0 {
        Seq::empty()
    } else {
        concat_all(l.drop_last()) + l.last()
    }
}

/// n copies of the final sequence number 0xFFFFFFFF.
pub open spec fn sequences_spec(n: nat) -> Seq<u8>
    decreases n,
{
    if n == 0 {
        Seq::empty()
    } else {
        sequences_spec((n - 1) as nat) + seq![0xFFu8, 0xFFu8, 0xFFu8, 0xFFu8]
    }
}

/// Double SHA-256 at the spec level.
pub open spec fn sha256d(s: Seq<u8>) -> Seq<u8> {
    sha256_of(sha256_of(s))
}

/// The commitment-hash preimage for input i: version, the hash of all
/// outpoints, the hash of all sequence numbers, this input's outpoint,
/// script code and value, its sequence number, the hash of all outputs,
/// the lock time and the SIGHASH_ALL type, all little-endian.
pub open spec fn commitment_preimage_spec(
    outpoints: Seq<Seq<u8>>,
    scriptcodes: Seq<Seq<u8>>,
    values: Seq<Seq<u8>>,
    outputs: Seq<Seq<u8>>,
    i: int,
) -> Seq<u8> {
    seq![2u8, 0u8, 0u8, 0u8] + sha256d(concat_all(outpoints)) + sha256d(
        sequences_spec(outpoints.len()),
    ) + outpoints[i] + scriptcodes[i] + values[i] + seq![0xFFu8, 0xFFu8, 0xFFu8, 0xFFu8] + sha256d(
        concat_all(outputs),
    ) + seq![0u8, 0u8, 0u8, 0u8] + seq![1u8, 0u8, 0u8, 0u8]
}

/// Concatenates a list of byte strings.
pub fn concat_bytes(l: &Vec<Vec<u8>>) -> (r: Vec<u8>)
    ensures
        r@ == concat_all(l.deep_view()),
{
    let n = l.len();
    let mut v: Vec<u8> = Vec::new();
    let ghost dv = l.deep_view();
    proof {
        assert(dv.subrange(0, 0) =~= Seq::<Seq<u8>>::empty());
        assert(v@ =~= concat_all(dv.subrange(0, 0)));
    }
    let mut i: usize = 0;
    while i < n
        invariant
            i <= n,
            n == l@.len(),
            dv == l.deep_view(),
            v@ == concat_all(dv.subrange(0, i as int)),
        decreases n - i,
    {
        append_bytes(&mut v, &l[i]);
        proof {
            let pre = dv.subrange(0, i + 1);
            assert(pre.drop_last() =~= dv.subrange(0, i as int));
            assert(pre.last() == dv[i as int]);
            assert(dv[i as int] == l@[i as int]@);
        }
        i = i + 1;
    }
    proof {
        assert(dv.subrange(0, n as int) =~= dv);
    }
    v
}

/// Builds the segwit commitment hash (the value each input's signature
/// signs) for every input: all inputs share the hashed prevouts, hashed
/// sequences and hashed outputs; each gets its own outpoint, script code
/// and value.
pub fn get_commitment_hash(
    outpoints: &Vec<Vec<u8>>,
    scriptcodes: &Vec<Vec<u8>>,
    values: &Vec<Vec<u8>>,
    outputs: &Vec<Vec<u8>>,
) -> (r: Vec<Vec<u8>>)
    requires
        scriptcodes@.len() == outpoints@.len(),
        values@.len() == outpoints@.len(),
    ensures
        r@.len() == outpoints@.len(),
        forall|i: int|
            0 <= i < outpoints@.len() ==> r@[i]@ == sha256d(
                #[trigger] commitment_preimage_spec(
                    outpoints.deep_view(),
                    scriptcodes.deep_view(),
                    values.deep_view(),
                    outputs.deep_view(),
                    i,
                ),
            ),
{
    let n = outpoints.len();
    let all_outpoints = concat_bytes(outpoints);
    let hash_prev_out = dsha256(&all_outpoints);
    let mut sequences: Vec<u8> = Vec::new();
    let mut k: usize = 0;
    while k < n
        invariant
            k <= n,
            sequences@ == sequences_spec(k as nat),
        decreases n - k,
    {
        sequences.push(0xFF);
        sequences.push(0xFF);
        sequences.push(0xFF);
        sequences.push(0xFF);
        proof {
            assert(sequences@ =~= sequences_spec(k as nat) + seq![0xFFu8, 0xFFu8, 0xFFu8, 0xFFu8]);
        }
        k = k + 1;
    }
    let hashed_sequence = dsha256(&sequences);
    let all_outputs = concat_bytes(outputs);
    let hashed_outputs = dsha256(&all_outputs);
    let mut result: Vec<Vec<u8>> = Vec::new();
    let ghost dop = outpoints.deep_view();
    let ghost dsc = scriptcodes.deep_view();
    let ghost dva = values.deep_view();
    let ghost dou = outputs.deep_view();
    let mut i: usize = 0;
    while i < n
        invariant
            i <= n,
            n == outpoints@.len(),
            scriptcodes@.len() == n,
            values@.len() == n,
            dop == outpoints.deep_view(),
            dsc == scriptcodes.deep_view(),
            dva == values.deep_view(),
            dou == outputs.deep_view(),
            hash_prev_out@ == sha256d(concat_all(dop)),
            hashed_sequence@ == sha256d(sequences_spec(n as nat)),
            hashed_outputs@ == sha256d(concat_all(dou)),
            result@.len() == i,
            forall|j: int|
                0 <= j < i ==> result@[j]@ == sha256d(
                    #[trigger] commitment_preimage_spec(dop, dsc, dva, dou, j),
                ),
        decreases n - i,
    {
        let mut preimage: Vec<u8> = Vec::new();
        preimage.push(2);
        preimage.push(0);
        preimage.push(0);
        preimage.push(0);
        append_bytes(&mut preimage, &hash_prev_out);
        append_bytes(&mut preimage, &hashed_sequence);
        append_bytes(&mut preimage, &outpoints[i]);
        append_bytes(&mut preimage, &scriptcodes[i]);
        append_bytes(&mut preimage, &values[i]);
        preimage.push(0xFF);
        preimage.push(0xFF);
        preimage.push(0xFF);
        preimage.push(0xFF);
        append_bytes(&mut preimage, &hashed_outputs);
        preimage.push(0);
        preimage.push(0);
        preimage.push(0);
        preimage.push(0);
        preimage.push(1);
        preimage.push(0);
        preimage.push(0);
        preimage.push(0);
        proof {
            assert(preimage@ =~= commitment_preimage_spec(dop, dsc, dva, dou, i as int));
        }
        let h = dsha256(&preimage);
        result.push(h);
        i = i + 1;
    }
    result
}

} // verus!
