//! Swap orchestration: the per-swap context and its state machine, and
//! the byte-exact funding, success and revoke transactions of the atomic
//! swap, with the refund and timeout paths surfaced as explicit
//! NotImplemented results until their locktime semantics are specified.

use vstd::prelude::*;
use vstd::bytes::{spec_u32_to_le_bytes, u32_to_le_bytes};
use crate::curve::Point;
use crate::encoding::append_bytes;
use crate::errors::SwapError;
use crate::hashing::{sha256_of, ripemd160_of, dsha256};
use crate::transaction::{
    encode_inputs_spec, encode_outputs_spec, encode_inputs_with_sequence, encode_outputs,
    build_2_of_2_ms_script, build_p2wsh_script_pub_key, build_script_pub_key_p2wpkh, sha256d,
    outputs_view, concat_all, concat_bytes,
};

verus! {

/// An unspent transaction output supplied by an external collaborator;
/// the library only reads it.
#[derive(Clone, Debug, PartialEq, Eq)]
pub struct UnspentOutput {
    /// The funding transaction id in display order (big-endian).
    pub txid: Vec<u8>,
    /// The index of the output in that transaction.
    pub vout: u32,
    /// The output's value in satoshis.
    pub amount: u64,
}

impl UnspentOutput {
    /// Well-formed: the transaction id is 32 bytes.
    pub open spec fn wf(&self) -> bool {
        self.txid@.len() == 32
    }
}

/// The states of one swap execution; Completed, Revoked, Refunded and
/// Aborted are terminal.
#[derive(Clone, Copy, Debug, PartialEq, Eq, Structural)]
pub enum SwapState {
    Setup,
    Funded,
    PreSigned,
    Completed,
    Revoked,
    Refunded,
    Aborted,
}

/// The context owned by one swap execution: the adaptor secret t, the
/// statement point T = t·G, the counterparty's private scalar, the
/// per-signature nonce, and the commitment hash being signed.  It is
/// created at Setup and moves only forward through the protocol phases.
pub struct SwapContext {
    pub secret_t: Vec<u8>,
    pub statement_t: Point,
    pub counterparty_key: Vec<u8>,
    pub nonce: Vec<u8>,
    pub message: Vec<u8>,
    pub state: SwapState,
}

/// Two contexts agree on everything but the state.
pub open spec fn same_core(a: SwapContext, b: SwapContext) -> bool {
    &&& a.secret_t == b.secret_t
    &&& a.statement_t == b.statement_t
    &&& a.counterparty_key == b.counterparty_key
    &&& a.nonce == b.nonce
    &&& a.message == b.message
}

impl SwapContext {
    /// Well-formed: the statement point is a reduced curve point.
    pub open spec fn wf(&self) -> bool {
        self.statement_t.wf()
    }

    /// The swap has reached a terminal state.
    pub open spec fn terminal(&self) -> bool {
        ||| self.state == SwapState::Completed
        ||| self.state == SwapState::Revoked
        ||| self.state == SwapState::Refunded
        ||| self.state == SwapState::Aborted
    }

    /// Creates a context in the Setup state.
    pub fn new(
        secret_t: Vec<u8>,
        statement_t: Point,
        counterparty_key: Vec<u8>,
        nonce: Vec<u8>,
        message: Vec<u8>,
    ) -> (r: SwapContext)
        requires
            statement_t.wf(),
        ensures
            r.state == SwapState::Setup,
            r.secret_t == secret_t,
            r.statement_t == statement_t,
            r.counterparty_key == counterparty_key,
            r.nonce == nonce,
            r.message == message,
            r.wf(),
    {
        SwapContext { secret_t, statement_t, counterparty_key, nonce, message, state: SwapState::Setup }
    }

    /// The funding transaction was broadcast: Setup moves to Funded.
    pub fn mark_funded(&mut self)
        requires
            old(self).state == SwapState::Setup,
        ensures
            final(self).state == SwapState::Funded,
            same_core(*final(self), *old(self)),
    {
        self.state = SwapState::Funded;
    }

    /// The pre-signature was produced and verified: Funded moves to
    /// PreSigned.
    pub fn mark_pre_signed(&mut self)
        requires
            old(self).state == SwapState::Funded,
        ensures
            final(self).state == SwapState::PreSigned,
            same_core(*final(self), *old(self)),
    {
        self.state = SwapState::PreSigned;
    }

    /// The success transaction claimed the funds: PreSigned moves to
    /// Completed.
    pub fn complete(&mut self)
        requires
            old(self).state == SwapState::PreSigned,
        ensures
            final(self).state == SwapState::Completed,
            same_core(*final(self), *old(self)),
    {
        self.state = SwapState::Completed;
    }

    /// The revoke transaction unwound the swap: PreSigned moves to
    /// Revoked.
    pub fn revoke(&mut self)
        requires
            old(self).state == SwapState::PreSigned,
        ensures
            final(self).state == SwapState::Revoked,
            same_core(*final(self), *old(self)),
    {
        self.state = SwapState::Revoked;
    }

    /// A refund path unwound the swap: PreSigned moves to Refunded.
    pub fn refund(&mut self)
        requires
            old(self).state == SwapState::PreSigned,
        ensures
            final(self).state == SwapState::Refunded,
            same_core(*final(self), *old(self)),
    {
        self.state = SwapState::Refunded;
    }

    /// The swap was abandoned before completion: any non-terminal state
    /// moves to Aborted.
    pub fn abort(&mut self)
        requires
            !old(self).terminal(),
        ensures
            final(self).state == SwapState::Aborted,
            same_core(*final(self), *old(self)),
    {
        self.state = SwapState::Aborted;
    }
}

/// A reversed copy of a byte string.
pub fn reverse_bytes(v: &Vec<u8>) -> (r: Vec<u8>)
    ensures
        r@ == v@.reverse(),
{
    let n = v.len();
    let mut out: Vec<u8> = Vec::new();
    let mut i: usize = 0;
    while i < n
        invariant
            i <= n,
            n == v@.len(),
            out@.len() == i,
            forall|k: int| 0 <= k < i ==> out@[k] == v@[n - 1 - k],
        decreases n - i,
    {
        out.push(v[n - 1 - i]);
        i = i + 1;
    }
    proof {
        assert(out@ =~= v@.reverse());
    }
    out
}

/// The wire outpoint of a UTXO: the 32-byte transaction id reversed to
/// little-endian, then the 4-byte little-endian output index.
pub open spec fn outpoint_spec(u: UnspentOutput) -> Seq<u8> {
    u.txid@.reverse() + spec_u32_to_le_bytes(u.vout)
}

/// Builds the wire outpoint of a UTXO.
pub fn outpoint_bytes(utxo: &UnspentOutput) -> (r: Vec<u8>)
    requires
        utxo.wf(),
    ensures
        r@ == outpoint_spec(*utxo),
        r@.len() == 36,
{
    let mut v = reverse_bytes(&utxo.txid);
    let mut le = u32_to_le_bytes(utxo.vout);
    v.append(&mut le);
    v
}

/// The wire outpoints of a UTXO list.
pub open spec fn outpoints_of(l: Seq<UnspentOutput>) -> Seq<Seq<u8>> {
    l.map_values(|u: UnspentOutput| outpoint_spec(u))
}

/// The total value of a UTXO list, in satoshis.
pub open spec fn sum_amounts(l: Seq<UnspentOutput>) -> int
    decreases l.len(),
{
    if l.len() == 0 {
        0
    } else {
        sum_amounts(l.drop_last()) + l.last().amount
    }
}

/// The total value splits at any index, and every part is non-negative.
pub proof fn lemma_sum_amounts_split(l: Seq<UnspentOutput>, i: int)
    requires
        0 <= i <= l.len(),
    ensures
        sum_amounts(l) == sum_amounts(l.subrange(0, i)) + sum_amounts(l.subrange(i, l.len() as int)),
        sum_amounts(l.subrange(i, l.len() as int)) >= 0,
    decreases l.len() - i,
{
    let n = l.len() as int;
    if i == n {
        assert(l.subrange(0, n) =~= l);
        assert(l.subrange(n, n) =~= Seq::<UnspentOutput>::empty());
    } else {
        lemma_sum_amounts_split(l.drop_last(), i);
        let t = l.drop_last();
        assert(t.subrange(0, i) =~= l.subrange(0, i));
        assert(t.subrange(i, t.len() as int) =~= l.subrange(i, n).drop_last());
        assert(l.subrange(i, n).last() == l.last());
    }
}

/// Every UTXO in the list has a 32-byte transaction id.
pub open spec fn all_wf(l: Seq<UnspentOutput>) -> bool {
    forall|i: int| 0 <= i < l.len() ==> (#[trigger] l[i]).wf()
}

/// The serialized bytes of an unsigned transaction: version 2, the
/// inputs with the given sequence number, the outputs, and the lock
/// time.
pub open spec fn tx_spec(
    outpoints: Seq<Seq<u8>>,
    sequence: u32,
    outputs: Seq<(Seq<u8>, u64)>,
    lock_time: u32,
) -> Seq<u8> {
    spec_u32_to_le_bytes(2) + encode_inputs_spec(outpoints, sequence) + encode_outputs_spec(outputs)
        + spec_u32_to_le_bytes(lock_time)
}

/// The 2-of-2 multisig witness script of the two parties.
pub open spec fn ms_script_spec(sender: Seq<u8>, receiver: Seq<u8>) -> Seq<u8> {
    seq![0x52u8, 33u8] + sender + seq![33u8] + receiver + seq![0x52u8, 0xAEu8]
}

/// The P2WSH script pubkey committing to that witness script.
pub open spec fn funding_spk_spec(sender: Seq<u8>, receiver: Seq<u8>) -> Seq<u8> {
    seq![0u8, 32u8] + sha256_of(ms_script_spec(sender, receiver))
}

/// An owned copy of a byte vector.
fn copy_bytes(v: &Vec<u8>) -> (r: Vec<u8>)
    ensures
        r@ == v@,
{
    let mut out: Vec<u8> = Vec::new();
    append_bytes(&mut out, v);
    proof {
        assert(Seq::<u8>::empty() + v@ =~= v@);
    }
    out
}

/// Builds the funding transaction: it spends the supplied UTXOs into a
/// 2-of-2 P2WSH multisig output of the swap amount plus a change output
/// carrying the rest after the fee; the error is InsufficientFundsError
/// exactly when the UTXOs cannot cover amount plus fee.
pub fn build_funding_transaction(
    utxos: &Vec<UnspentOutput>,
    swap_amount: u64,
    fee: u64,
    sender_pub_key: &Vec<u8>,
    receiver_pub_key: &Vec<u8>,
    change_script: &Vec<u8>,
) -> (out: Result<Vec<u8>, SwapError>)
    requires
        all_wf(utxos@),
        sum_amounts(utxos@) <= u64::MAX,
        sender_pub_key@.len() == 33,
        receiver_pub_key@.len() == 33,
    ensures
        out matches Ok(v) ==> sum_amounts(utxos@) >= swap_amount + fee && v@ == tx_spec(
            outpoints_of(utxos@),
            0xFFFF_FFFF,
            seq![
                (funding_spk_spec(sender_pub_key@, receiver_pub_key@), swap_amount),
                (change_script@, (sum_amounts(utxos@) - swap_amount - fee) as u64),
            ],
            0,
        ),
        out matches Err(e) ==> sum_amounts(utxos@) < swap_amount + fee && e
            == SwapError::InsufficientFundsError,
{
    let n = utxos.len();
    let mut total: u64 = 0;
    let mut i: usize = 0;
    proof {
        assert(utxos@.subrange(0, 0) =~= Seq::<UnspentOutput>::empty());
    }
    while i < n
        invariant
            i <= n,
            n == utxos@.len(),
            all_wf(utxos@),
            sum_amounts(utxos@) <= u64::MAX,
            total == sum_amounts(utxos@.subrange(0, i as int)),
        decreases n - i,
    {
        proof {
            lemma_sum_amounts_split(utxos@, i + 1);
            lemma_sum_amounts_split(utxos@.subrange(0, i + 1), i as int);
            assert(utxos@.subrange(0, i + 1).subrange(0, i as int) =~= utxos@.subrange(
                0,
                i as int,
            ));
            assert(utxos@.subrange(0, i + 1).subrange(i as int, i + 1) =~= utxos@.subrange(
                i as int,
                i + 1,
            ));
            assert(utxos@.subrange(i as int, i + 1).drop_last() =~= Seq::<UnspentOutput>::empty());
            assert(utxos@.subrange(i as int, i + 1).last() == utxos@[i as int]);
        }
        total = total + utxos[i].amount;
        i = i + 1;
    }
    proof {
        assert(utxos@.subrange(0, n as int) =~= utxos@);
    }
    if swap_amount > u64::MAX - fee || total < swap_amount + fee {
        return Err(SwapError::InsufficientFundsError);
    }
    let change: u64 = total - swap_amount - fee;
    let mut outpoints: Vec<Vec<u8>> = Vec::new();
    let mut j: usize = 0;
    while j < n
        invariant
            j <= n,
            n == utxos@.len(),
            all_wf(utxos@),
            outpoints@.len() == j,
            forall|ii: int| 0 <= ii < j ==> #[trigger] outpoints@[ii]@ == outpoint_spec(utxos@[ii]),
        decreases n - j,
    {
        let op = outpoint_bytes(&utxos[j]);
        outpoints.push(op);
        j = j + 1;
    }
    proof {
        let lhs = outpoints.deep_view();
        let rhs = outpoints_of(utxos@);
        assert(lhs.len() == rhs.len());
        assert forall|ii: int| 0 <= ii < lhs.len() implies lhs[ii] == rhs[ii] by {
            assert(lhs[ii] == outpoints@[ii]@);
            assert(rhs[ii] == outpoint_spec(utxos@[ii]));
        }
        assert(lhs =~~= rhs);
    }
    let inputs = encode_inputs_with_sequence(&outpoints, 0xFFFF_FFFF);
    let ms_script = build_2_of_2_ms_script(sender_pub_key, receiver_pub_key);
    let funding_spk = build_p2wsh_script_pub_key(&ms_script);
    let change_spk = copy_bytes(change_script);
    let mut outputs_list: Vec<(Vec<u8>, u64)> = Vec::new();
    outputs_list.push((funding_spk, swap_amount));
    outputs_list.push((change_spk, change));
    let ghost outs_view = seq![
        (funding_spk_spec(sender_pub_key@, receiver_pub_key@), swap_amount),
        (change_script@, change),
    ];
    proof {
        let lhs = crate::transaction::outputs_view(outputs_list@);
        assert(lhs.len() == 2);
        assert(lhs[0] == (outputs_list@[0].0@, outputs_list@[0].1));
        assert(lhs[1] == (outputs_list@[1].0@, outputs_list@[1].1));
        assert(lhs =~~= outs_view);
    }
    let outputs = encode_outputs(outputs_list);
    let mut tx = u32_to_le_bytes(2);
    append_bytes(&mut tx, &inputs);
    append_bytes(&mut tx, &outputs);
    let mut lock = u32_to_le_bytes(0);
    tx.append(&mut lock);
    proof {
        assert(tx@ =~= tx_spec(outpoints_of(utxos@), 0xFFFF_FFFF, outs_view, 0));
    }
    Ok(tx)
}

/// Builds the success transaction: it spends the funding output to the
/// counterparty's P2WPKH script for the funding amount minus the fee;
/// the error is InsufficientFundsError exactly when the fee exceeds the
/// amount.
pub fn build_success_transaction(
    funding_txid: &Vec<u8>,
    funding_vout: u32,
    amount: u64,
    fee: u64,
    receiver_pub_key: &Vec<u8>,
) -> (out: Result<Vec<u8>, SwapError>)
    requires
        funding_txid@.len() == 32,
    ensures
        out matches Ok(v) ==> amount >= fee && v@ == tx_spec(
            seq![funding_txid@.reverse() + spec_u32_to_le_bytes(funding_vout)],
            0xFFFF_FFFF,
            seq![
                (seq![0u8, 20u8] + ripemd160_of(sha256_of(receiver_pub_key@)), (amount - fee) as u64),
            ],
            0,
        ),
        out matches Err(e) ==> amount < fee && e == SwapError::InsufficientFundsError,
{
    if amount < fee {
        return Err(SwapError::InsufficientFundsError);
    }
    let utxo = UnspentOutput { txid: copy_bytes(funding_txid), vout: funding_vout, amount };
    let op = outpoint_bytes(&utxo);
    let mut outpoints: Vec<Vec<u8>> = Vec::new();
    outpoints.push(op);
    proof {
        assert(outpoints.deep_view() =~~= seq![
            funding_txid@.reverse() + spec_u32_to_le_bytes(funding_vout),
        ]);
    }
    let inputs = encode_inputs_with_sequence(&outpoints, 0xFFFF_FFFF);
    let spk = build_script_pub_key_p2wpkh(receiver_pub_key);
    let mut outputs_list: Vec<(Vec<u8>, u64)> = Vec::new();
    outputs_list.push((spk, amount - fee));
    proof {
        let lhs = crate::transaction::outputs_view(outputs_list@);
        assert(lhs.len() == 1);
        assert(lhs[0] == (outputs_list@[0].0@, outputs_list@[0].1));
        assert(lhs =~~= seq![
            (seq![0u8, 20u8] + ripemd160_of(sha256_of(receiver_pub_key@)), (amount - fee) as u64),
        ]);
    }
    let outputs = encode_outputs(outputs_list);
    let mut tx = u32_to_le_bytes(2);
    append_bytes(&mut tx, &inputs);
    append_bytes(&mut tx, &outputs);
    let mut lock = u32_to_le_bytes(0);
    tx.append(&mut lock);
    proof {
        assert(tx@ =~= tx_spec(
            seq![funding_txid@.reverse() + spec_u32_to_le_bytes(funding_vout)],
            0xFFFF_FFFF,
            seq![
                (seq![0u8, 20u8] + ripemd160_of(sha256_of(receiver_pub_key@)), (amount - fee) as u64),
            ],
            0,
        ));
    }
    Ok(tx)
}

/// Builds the revoke transaction: it spends the funding output back to
/// the given return script after the absolute lock time, with sequence
/// 0xFFFFFFFE so that the lock time is enforced; the error is
/// InsufficientFundsError exactly when the fee exceeds the amount.
pub fn build_revoke_transaction(
    funding_txid: &Vec<u8>,
    funding_vout: u32,
    amount: u64,
    fee: u64,
    return_script: &Vec<u8>,
    lock_time: u32,
) -> (out: Result<Vec<u8>, SwapError>)
    requires
        funding_txid@.len() == 32,
    ensures
        out matches Ok(v) ==> amount >= fee && v@ == tx_spec(
            seq![funding_txid@.reverse() + spec_u32_to_le_bytes(funding_vout)],
            0xFFFF_FFFE,
            seq![(return_script@, (amount - fee) as u64)],
            lock_time,
        ),
        out matches Err(e) ==> amount < fee && e == SwapError::InsufficientFundsError,
{
    if amount < fee {
        return Err(SwapError::InsufficientFundsError);
    }
    let utxo = UnspentOutput { txid: copy_bytes(funding_txid), vout: funding_vout, amount };
    let op = outpoint_bytes(&utxo);
    let mut outpoints: Vec<Vec<u8>> = Vec::new();
    outpoints.push(op);
    proof {
        assert(outpoints.deep_view() =~~= seq![
            funding_txid@.reverse() + spec_u32_to_le_bytes(funding_vout),
        ]);
    }
    let inputs = encode_inputs_with_sequence(&outpoints, 0xFFFF_FFFE);
    let mut outputs_list: Vec<(Vec<u8>, u64)> = Vec::new();
    outputs_list.push((copy_bytes(return_script), amount - fee));
    proof {
        let lhs = crate::transaction::outputs_view(outputs_list@);
        assert(lhs.len() == 1);
        assert(lhs[0] == (outputs_list@[0].0@, outputs_list@[0].1));
        assert(lhs =~~= seq![(return_script@, (amount - fee) as u64)]);
    }
    let outputs = encode_outputs(outputs_list);
    let mut tx = u32_to_le_bytes(2);
    append_bytes(&mut tx, &inputs);
    append_bytes(&mut tx, &outputs);
    let mut lock = u32_to_le_bytes(lock_time);
    tx.append(&mut lock);
    proof {
        assert(tx@ =~= tx_spec(
            seq![funding_txid@.reverse() + spec_u32_to_le_bytes(funding_vout)],
            0xFFFF_FFFE,
            seq![(return_script@, (amount - fee) as u64)],
            lock_time,
        ));
    }
    Ok(tx)
}

/// The refund path's locktime and script semantics are not yet
/// specified; it reports NotImplemented explicitly rather than building
/// a transaction silently.
pub fn build_refund_transaction() -> (out: Result<Vec<u8>, SwapError>)
    ensures
        out == Result::<Vec<u8>, SwapError>::Err(SwapError::NotImplemented),
{
    Err(SwapError::NotImplemented)
}

/// The timeout path's locktime and script semantics are not yet
/// specified; it reports NotImplemented explicitly rather than building
/// a transaction silently.
pub fn build_timeout_transaction() -> (out: Result<Vec<u8>, SwapError>)
    ensures
        out == Result::<Vec<u8>, SwapError>::Err(SwapError::NotImplemented),
{
    Err(SwapError::NotImplemented)
}

/// Serializes a complete segwit transaction for broadcast: version 2,
/// the segwit marker and flag bytes, the inputs, the outputs, one
/// pre-assembled witness stack per input, and the lock time.
pub fn assemble_segwit_transaction(
    outpoints: &Vec<Vec<u8>>,
    sequence: u32,
    outputs_list: Vec<(Vec<u8>, u64)>,
    witnesses: &Vec<Vec<u8>>,
    lock_time: u32,
) -> (r: Vec<u8>)
    ensures
        r@ == spec_u32_to_le_bytes(2) + seq![0u8, 1u8] + encode_inputs_spec(
            outpoints.deep_view(),
            sequence,
        ) + encode_outputs_spec(outputs_view(outputs_list@)) + concat_all(witnesses.deep_view())
            + spec_u32_to_le_bytes(lock_time),
{
    let ghost outs = outputs_view(outputs_list@);
    let inputs = encode_inputs_with_sequence(outpoints, sequence);
    let outputs = encode_outputs(outputs_list);
    let wits = concat_bytes(witnesses);
    let mut tx = u32_to_le_bytes(2);
    tx.push(0);
    tx.push(1);
    append_bytes(&mut tx, &inputs);
    append_bytes(&mut tx, &outputs);
    append_bytes(&mut tx, &wits);
    let mut lock = u32_to_le_bytes(lock_time);
    tx.append(&mut lock);
    proof {
        assert(tx@ =~= spec_u32_to_le_bytes(2) + seq![0u8, 1u8] + encode_inputs_spec(
            outpoints.deep_view(),
            sequence,
        ) + encode_outputs_spec(outs) + concat_all(witnesses.deep_view()) + spec_u32_to_le_bytes(
            lock_time,
        ));
    }
    tx
}

/// Parses a transaction id from its display hex string: 64 hex digits
/// denoting 32 bytes; the error is ParseError exactly when the string
/// is not such an id.
pub fn parse_txid(s: &str) -> (out: Result<Vec<u8>, SwapError>)
    ensures
        out matches Ok(v) ==> crate::encoding::valid_hex(s@) && v@ == crate::encoding::hex_bytes(
            s@,
        ) && v@.len() == 32,
        out matches Err(e) ==> (!crate::encoding::valid_hex(s@) || crate::encoding::hex_bytes(
            s@,
        ).len() != 32) && e == SwapError::ParseError,
{
    let bytes = match crate::encoding::hex_decode(s) {
        Some(v) => v,
        None => {
            return Err(SwapError::ParseError);
        },
    };
    if bytes.len() != 32 {
        return Err(SwapError::ParseError);
    }
    Ok(bytes)
}

/// The transaction id of serialized transaction bytes: the double
/// SHA-256 of the bytes, reversed for display.
pub fn transaction_id(tx: &Vec<u8>) -> (r: Vec<u8>)
    ensures
        r@ == sha256d(tx@).reverse(),
{
    let h = dsha256(tx);
    reverse_bytes(&h)
}

} // verus!
