//! Byte-exact encodings: Bitcoin compact-size integers, DER signature
//! serialization, and hex strings.

use vstd::prelude::*;
use vstd::bytes::{
    spec_u16_to_le_bytes, spec_u16_from_le_bytes, spec_u32_to_le_bytes, spec_u32_from_le_bytes,
    spec_u64_to_le_bytes, spec_u64_from_le_bytes, u16_to_le_bytes, u16_from_le_bytes,
    u32_to_le_bytes, u32_from_le_bytes, u64_to_le_bytes, u64_from_le_bytes,
    lemma_auto_spec_u16_to_from_le_bytes, lemma_auto_spec_u32_to_from_le_bytes,
    lemma_auto_spec_u64_to_from_le_bytes,
};
use crate::errors::SwapError;

verus! {

// ---------------------------------------------------------------------------
// Compact-size integers
// ---------------------------------------------------------------------------
/// The Bitcoin compact-size encoding of an unsigned 64-bit value: one
/// byte up to 252, otherwise a marker byte followed by a little-endian
/// 2-, 4- or 8-byte value.
pub open spec fn compact_size_spec(n: u64) -> Seq<u8> {
    if n <= 252 {
        seq![n as u8]
    } else if n <= 0xFFFF {
        seq![253u8] + spec_u16_to_le_bytes(n as u16)
    } else if n <= 0xFFFF_FFFF {
        seq![254u8] + spec_u32_to_le_bytes(n as u32)
    } else {
        seq![255u8] + spec_u64_to_le_bytes(n)
    }
}

/// What decoding a compact-size integer at the head of a byte string
/// yields: the value and the number of bytes consumed, or nothing when
/// the string is too short.
pub open spec fn decode_compact_size_spec(s: Seq<u8>) -> Option<(u64, int)> {
    if s.len() == 0 {
        None
    } else if s[0] <= 252 {
        Some((s[0] as u64, 1))
    } else if s[0] == 253 {
        if s.len() >= 3 {
            Some((spec_u16_from_le_bytes(s.subrange(1, 3)) as u64, 3))
        } else {
            None
        }
    } else if s[0] == 254 {
        if s.len() >= 5 {
            Some((spec_u32_from_le_bytes(s.subrange(1, 5)) as u64, 5))
        } else {
            None
        }
    } else {
        if s.len() >= 9 {
            Some((spec_u64_from_le_bytes(s.subrange(1, 9)), 9))
        } else {
            None
        }
    }
}

/// Encodes a value as a Bitcoin compact-size integer.
pub fn encode_compact_size(number: u64) -> (r: Vec<u8>)
    ensures
        r@ == compact_size_spec(number),
        1 <= r@.len() <= 9,
{
    let mut v: Vec<u8> = Vec::new();
    if number <= 252 {
        v.push(number as u8);
        proof {
            assert(v@ =~= compact_size_spec(number));
        }
    } else if number <= 0xFFFF {
        v.push(253);
        let mut w = u16_to_le_bytes(number as u16);
        v.append(&mut w);
        proof {
            assert(v@ =~= compact_size_spec(number));
        }
    } else if number <= 0xFFFF_FFFF {
        v.push(254);
        let mut w = u32_to_le_bytes(number as u32);
        v.append(&mut w);
        proof {
            assert(v@ =~= compact_size_spec(number));
        }
    } else {
        v.push(255);
        let mut w = u64_to_le_bytes(number);
        v.append(&mut w);
        proof {
            assert(v@ =~= compact_size_spec(number));
        }
    }
    v
}

/// Decodes a compact-size integer found at position pos; the error is
/// EncodingError exactly when the bytes run out before the value ends.
pub fn decode_compact_size(bytes: &Vec<u8>, pos: usize) -> (r: Result<(u64, usize), SwapError>)
    requires
        pos <= bytes@.len(),
    ensures
        r matches Ok(t) ==> decode_compact_size_spec(
            bytes@.subrange(pos as int, bytes@.len() as int),
        ) == Some((t.0, t.1 as int)) && pos + t.1 <= bytes@.len() && 1 <= t.1 <= 9,
        r matches Err(e) ==> decode_compact_size_spec(
            bytes@.subrange(pos as int, bytes@.len() as int),
        ) is None && e == SwapError::EncodingError,
{
    let n = bytes.len();
    let ghost s = bytes@.subrange(pos as int, n as int);
    if pos >= n {
        return Err(SwapError::EncodingError);
    }
    let tag = bytes[pos];
    proof {
        assert(s[0] == bytes@[pos as int]);
    }
    if tag <= 252 {
        Ok((tag as u64, 1))
    } else if tag == 253 {
        if n - pos >= 3 {
            let mut w: Vec<u8> = Vec::new();
            w.push(bytes[pos + 1]);
            w.push(bytes[pos + 2]);
            let x = u16_from_le_bytes(w.as_slice());
            proof {
                assert(w@ =~= s.subrange(1, 3));
            }
            Ok((x as u64, 3))
        } else {
            Err(SwapError::EncodingError)
        }
    } else if tag == 254 {
        if n - pos >= 5 {
            let mut w: Vec<u8> = Vec::new();
            w.push(bytes[pos + 1]);
            w.push(bytes[pos + 2]);
            w.push(bytes[pos + 3]);
            w.push(bytes[pos + 4]);
            let x = u32_from_le_bytes(w.as_slice());
            proof {
                assert(w@ =~= s.subrange(1, 5));
            }
            Ok((x as u64, 5))
        } else {
            Err(SwapError::EncodingError)
        }
    } else {
        if n - pos >= 9 {
            let mut w: Vec<u8> = Vec::new();
            let mut k: usize = 1;
            while k < 9
                invariant
                    1 <= k <= 9,
                    pos + 9 <= n,
                    n == bytes@.len(),
                    w@ =~= bytes@.subrange(pos + 1, pos + k),
                decreases 9 - k,
            {
                w.push(bytes[pos + k]);
                proof {
                    assert(w@ =~= bytes@.subrange(pos + 1, pos + k + 1));
                }
                k = k + 1;
            }
            let x = u64_from_le_bytes(w.as_slice());
            proof {
                assert(w@ =~= s.subrange(1, 9));
            }
            Ok((x, 9))
        } else {
            Err(SwapError::EncodingError)
        }
    }
}

/// Compact-size round trip: decoding an encoding yields the encoded
/// value back, consuming the whole encoding.
pub proof fn lemma_compact_size_round_trip(n: u64)
    ensures
        decode_compact_size_spec(compact_size_spec(n)) == Some(
            (n, compact_size_spec(n).len() as int),
        ),
{
    let e = compact_size_spec(n);
    if n <= 252 {
        assert(e[0] == n as u8);
    } else if n <= 0xFFFF {
        lemma_auto_spec_u16_to_from_le_bytes();
        assert(e[0] == 253);
        assert(e.subrange(1, 3) =~= spec_u16_to_le_bytes(n as u16));
    } else if n <= 0xFFFF_FFFF {
        lemma_auto_spec_u32_to_from_le_bytes();
        assert(e[0] == 254);
        assert(e.subrange(1, 5) =~= spec_u32_to_le_bytes(n as u32));
    } else {
        lemma_auto_spec_u64_to_from_le_bytes();
        assert(e[0] == 255);
        assert(e.subrange(1, 9) =~= spec_u64_to_le_bytes(n));
    }
}

// ---------------------------------------------------------------------------
// DER signature serialization
// ---------------------------------------------------------------------------
/// One DER INTEGER: tag 0x02, a length byte, and the value bytes, with a
/// zero byte prepended when the most significant bit is set (DER encodes
/// non-negative integers).
pub open spec fn der_int_spec(v: Seq<u8>) -> Seq<u8> {
    if v.len() > 0 && v[0] >= 0x80 {
        seq![0x02u8, (v.len() + 1) as u8, 0x00u8] + v
    } else {
        seq![0x02u8, v.len() as u8] + v
    }
}

/// A DER ECDSA signature: tag 0x30, the total length of the two INTEGER
/// encodings, then the INTEGER encodings of r and s.
pub open spec fn der_sig_spec(r: Seq<u8>, s: Seq<u8>) -> Seq<u8> {
    seq![0x30u8, (der_int_spec(r).len() + der_int_spec(s).len()) as u8] + der_int_spec(r)
        + der_int_spec(s)
}

/// Appends a copy of src to dst.
pub fn append_bytes(dst: &mut Vec<u8>, src: &Vec<u8>)
    ensures
        final(dst)@ == old(dst)@ + src@,
{
    let n = src.len();
    let mut i: usize = 0;
    proof {
        assert(dst@ =~= old(dst)@ + src@.subrange(0, 0));
    }
    while i < n
        invariant
            i <= n,
            n == src@.len(),
            dst@ =~= old(dst)@ + src@.subrange(0, i as int),
        decreases n - i,
    {
        dst.push(src[i]);
        proof {
            assert(dst@ =~= old(dst)@ + src@.subrange(0, i + 1));
        }
        i = i + 1;
    }
    proof {
        assert(src@.subrange(0, n as int) =~= src@);
    }
}

/// The DER INTEGER encoding of one signature component.
fn der_int_part(v: &Vec<u8>) -> (r: Vec<u8>)
    requires
        1 <= v@.len() <= 33,
    ensures
        r@ == der_int_spec(v@),
{
    let mut out: Vec<u8> = Vec::new();
    out.push(0x02);
    if v[0] >= 0x80 {
        out.push((v.len() + 1) as u8);
        out.push(0x00);
    } else {
        out.push(v.len() as u8);
    }
    append_bytes(&mut out, v);
    proof {
        assert(out@ =~= der_int_spec(v@));
    }
    out
}

/// DER-encodes a signature pair (r, s), each component given as its
/// big-endian value bytes of at most 33 bytes.
pub fn der_encoding(r: Vec<u8>, s: Vec<u8>) -> (out: Vec<u8>)
    requires
        1 <= r@.len() <= 33,
        1 <= s@.len() <= 33,
    ensures
        out@ == der_sig_spec(r@, s@),
{
    let ri = der_int_part(&r);
    let si = der_int_part(&s);
    let mut out: Vec<u8> = Vec::new();
    out.push(0x30);
    out.push((ri.len() + si.len()) as u8);
    append_bytes(&mut out, &ri);
    append_bytes(&mut out, &si);
    proof {
        assert(out@ =~= der_sig_spec(r@, s@));
    }
    out
}

/// Strips the sign-padding zero byte from a decoded DER INTEGER value.
pub open spec fn der_strip(v: Seq<u8>) -> Seq<u8> {
    if v.len() > 1 && v[0] == 0 {
        v.subrange(1, v.len() as int)
    } else {
        v
    }
}

/// What reading one DER INTEGER at position pos yields: the value bytes
/// (sign padding removed) and the position after it.
pub open spec fn der_read_int_spec(s: Seq<u8>, pos: int) -> Option<(Seq<u8>, int)> {
    if 0 <= pos && pos + 2 <= s.len() && s[pos] == 0x02 {
        let l = s[pos + 1] as int;
        if l >= 1 && pos + 2 + l <= s.len() {
            Some((der_strip(s.subrange(pos + 2, pos + 2 + l)), pos + 2 + l))
        } else {
            None
        }
    } else {
        None
    }
}

/// What decoding a DER ECDSA signature yields: the two component values,
/// when the bytes are exactly one well-formed signature.
pub open spec fn der_decode_spec(s: Seq<u8>) -> Option<(Seq<u8>, Seq<u8>)> {
    if s.len() >= 2 && s[0] == 0x30 && s[1] as int == s.len() - 2 {
        match der_read_int_spec(s, 2) {
            Some((rv, p1)) => match der_read_int_spec(s, p1) {
                Some((sv, p2)) => if p2 == s.len() {
                    Some((rv, sv))
                } else {
                    None
                },
                None => None,
            },
            None => None,
        }
    } else {
        None
    }
}

/// Reads one DER INTEGER at position pos.
fn der_read_int(sig: &Vec<u8>, pos: usize) -> (r: Result<(Vec<u8>, usize), SwapError>)
    ensures
        r matches Ok(t) ==> der_read_int_spec(sig@, pos as int) == Some((t.0@, t.1 as int))
            && pos < t.1 <= sig@.len(),
        r matches Err(e) ==> der_read_int_spec(sig@, pos as int) is None && e
            == SwapError::EncodingError,
{
    let n = sig.len();
    if pos >= n || n - pos < 2 {
        return Err(SwapError::EncodingError);
    }
    if sig[pos] != 0x02 {
        return Err(SwapError::EncodingError);
    }
    let l = sig[pos + 1] as usize;
    if l < 1 || n - pos - 2 < l {
        return Err(SwapError::EncodingError);
    }
    let ghost raw = sig@.subrange(pos + 2, pos + 2 + l as int);
    let mut start: usize = pos + 2;
    if l > 1 && sig[pos + 2] == 0 {
        start = pos + 3;
    }
    let mut v: Vec<u8> = Vec::new();
    let mut k: usize = start;
    let stop = pos + 2 + l;
    while k < stop
        invariant
            start <= k <= stop,
            stop <= sig@.len(),
            v@ =~= sig@.subrange(start as int, k as int),
        decreases stop - k,
    {
        v.push(sig[k]);
        proof {
            assert(v@ =~= sig@.subrange(start as int, k + 1));
        }
        k = k + 1;
    }
    proof {
        if start == pos + 3 {
            assert(raw.len() > 1 && raw[0] == 0);
            assert(v@ =~= raw.subrange(1, raw.len() as int));
        } else {
            assert(!(raw.len() > 1 && raw[0] == 0));
            assert(v@ =~= raw);
        }
    }
    Ok((v, stop))
}

/// Decodes a DER ECDSA signature into its (r, s) value bytes; the error
/// is EncodingError exactly when the bytes are not one well-formed
/// signature.
pub fn der_decode(sig: &Vec<u8>) -> (out: Result<(Vec<u8>, Vec<u8>), SwapError>)
    ensures
        out matches Ok(t) ==> der_decode_spec(sig@) == Some((t.0@, t.1@)),
        out matches Err(e) ==> der_decode_spec(sig@) is None && e == SwapError::EncodingError,
{
    let n = sig.len();
    if n < 2 {
        return Err(SwapError::EncodingError);
    }
    if sig[0] != 0x30 {
        return Err(SwapError::EncodingError);
    }
    if sig[1] as usize != n - 2 {
        return Err(SwapError::EncodingError);
    }
    let (rv, p1) = match der_read_int(sig, 2) {
        Ok(t) => t,
        Err(e) => {
            return Err(e);
        },
    };
    let (sv, p2) = match der_read_int(sig, p1) {
        Ok(t) => t,
        Err(e) => {
            return Err(e);
        },
    };
    if p2 != n {
        return Err(SwapError::EncodingError);
    }
    Ok((rv, sv))
}

/// DER round trip: decoding an encoding yields the components back, for
/// components in minimal form (no redundant leading zero byte).
pub proof fn lemma_der_round_trip(r: Seq<u8>, s: Seq<u8>)
    requires
        1 <= r.len() <= 33,
        1 <= s.len() <= 33,
        r[0] != 0,
        s[0] != 0,
    ensures
        der_decode_spec(der_sig_spec(r, s)) == Some((r, s)),
{
    let ri = der_int_spec(r);
    let si = der_int_spec(s);
    let e = der_sig_spec(r, s);
    assert(e.len() == 2 + ri.len() + si.len());
    assert(e[0] == 0x30);
    assert(e[1] == (ri.len() + si.len()) as u8);
    // first INTEGER
    assert(e[2] == ri[0] && ri[0] == 0x02);
    assert(e[3] == ri[1]);
    let l1 = ri[1] as int;
    assert(l1 == ri.len() - 2);
    let raw1 = e.subrange(4, 4 + l1);
    assert(raw1 =~= ri.subrange(2, ri.len() as int));
    if r[0] >= 0x80 {
        assert(raw1 =~= seq![0x00u8] + r);
        assert(raw1[0] == 0 && raw1.len() == r.len() + 1 >= 2);
        assert(der_strip(raw1) =~= r);
    } else {
        assert(raw1 =~= r);
        assert(der_strip(raw1) =~= r);
    }
    assert(der_read_int_spec(e, 2) == Some((der_strip(raw1), 4 + l1)));
    // second INTEGER
    let p1 = 4 + l1;
    assert(e[p1] == si[0] && si[0] == 0x02);
    assert(e[p1 + 1] == si[1]);
    let l2 = si[1] as int;
    assert(l2 == si.len() - 2);
    let raw2 = e.subrange(p1 + 2, p1 + 2 + l2);
    assert(raw2 =~= si.subrange(2, si.len() as int));
    if s[0] >= 0x80 {
        assert(raw2 =~= seq![0x00u8] + s);
        assert(der_strip(raw2) =~= s);
    } else {
        assert(raw2 =~= s);
        assert(der_strip(raw2) =~= s);
    }
    assert(der_read_int_spec(e, p1) == Some((der_strip(raw2), p1 + 2 + l2)));
    assert(p1 + 2 + l2 == e.len());
}

// ---------------------------------------------------------------------------
// Hex strings
// ---------------------------------------------------------------------------
/// The character is a hex digit (either case).
pub open spec fn is_hex_digit(c: char) -> bool {
    (48 <= c as u32 && c as u32 <= 57) || (97 <= c as u32 && c as u32 <= 102) || (65 <= c as u32
        && c as u32 <= 70)
}

/// The value of a hex digit.
pub open spec fn hex_digit_val(c: char) -> nat {
    if 48 <= c as u32 && c as u32 <= 57 {
        (c as u32 - 48) as nat
    } else if 97 <= c as u32 && c as u32 <= 102 {
        (c as u32 - 87) as nat
    } else {
        (c as u32 - 55) as nat
    }
}

/// A string is valid hex: even length, hex digits throughout.
pub open spec fn valid_hex(s: Seq<char>) -> bool {
    s.len() % 2 == 0 && forall|i: int| 0 <= i < s.len() ==> is_hex_digit(#[trigger] s[i])
}

/// The bytes a valid hex string denotes.
pub open spec fn hex_bytes(s: Seq<char>) -> Seq<u8> {
    Seq::new(
        (s.len() / 2) as nat,
        |i: int| (hex_digit_val(s[2 * i]) * 16 + hex_digit_val(s[2 * i + 1])) as u8,
    )
}

/// The lowercase hex digit for a value below 16.
pub open spec fn hex_digit_char(n: nat) -> char {
    if n == 0 {
        '0'
    } else if n == 1 {
        '1'
    } else if n == 2 {
        '2'
    } else if n == 3 {
        '3'
    } else if n == 4 {
        '4'
    } else if n == 5 {
        '5'
    } else if n == 6 {
        '6'
    } else if n == 7 {
        '7'
    } else if n == 8 {
        '8'
    } else if n == 9 {
        '9'
    } else if n == 10 {
        'a'
    } else if n == 11 {
        'b'
    } else if n == 12 {
        'c'
    } else if n == 13 {
        'd'
    } else if n == 14 {
        'e'
    } else {
        'f'
    }
}

/// The lowercase hex string of a byte string, two digits per byte.
pub open spec fn hex_of(b: Seq<u8>) -> Seq<char> {
    Seq::new(
        (2 * b.len()) as nat,
        |i: int|
            if i % 2 == 0 {
                hex_digit_char((b[i / 2] >> 4) as nat)
            } else {
                hex_digit_char((b[i / 2] & 0x0F) as nat)
            },
    )
}

/// Relies on hex::decode: an even-length string of hex digits (either
/// case) decodes to the bytes it denotes; anything else is rejected.
#[verifier::external_body]
pub(crate) fn hex_decode(s: &str) -> (r: Option<Vec<u8>>)
    ensures
        r is Some ==> valid_hex(s@),
        r is None ==> !valid_hex(s@),
        r matches Some(v) ==> v@ == hex_bytes(s@),
{
    match hex::decode(s) {
        Ok(v) => Some(v),
        Err(_) => None,
    }
}

/// Relies on hex::encode: the lowercase hex string of the bytes, two
/// digits per byte.
#[verifier::external_body]
pub(crate) fn hex_encode(b: &Vec<u8>) -> (r: String)
    ensures
        r@ == hex_of(b@),
{
    hex::encode(b.as_slice())
}

/// The lowercase hex string of a byte string.
pub fn to_hex(bytes: &Vec<u8>) -> (r: String)
    ensures
        r@ == hex_of(bytes@),
{
    hex_encode(bytes)
}

/// The bytes a hex string denotes, or EncodingError when the string is
/// not valid hex.
pub fn from_hex(s: &str) -> (r: Result<Vec<u8>, SwapError>)
    ensures
        r matches Ok(v) ==> valid_hex(s@) && v@ == hex_bytes(s@),
        r matches Err(e) ==> !valid_hex(s@) && e == SwapError::EncodingError,
{
    match hex_decode(s) {
        Some(v) => Ok(v),
        None => Err(SwapError::EncodingError),
    }
}

} // verus!
