use atomic_swap::curve;
use atomic_swap::errors::{BalanceError, SwapError};
use atomic_swap::hashing;
use atomic_swap::swap::{self, SwapState, UnspentOutput};
use atomic_swap::transaction;

#[test]
fn funding_transaction_balances_and_reparses() {
    // one UTXO of 100,000 sats, swap amount 50,000 sats, fee 500 sats
    let utxo = UnspentOutput { txid: vec![0x11u8; 32], vout: 1, amount: 100_000 };
    let sender_pk = vec![0x02u8; 33];
    let receiver_pk = vec![0x03u8; 33];
    let change_script: Vec<u8> = [vec![0x00u8, 0x14u8], vec![0xABu8; 20]].concat();
    let tx = swap::build_funding_transaction(
        &vec![utxo],
        50_000,
        500,
        &sender_pk,
        &receiver_pk,
        &change_script,
    )
    .unwrap();
    // version (4) + input section (1 count byte + 36 + 1 + 4) = 46 bytes,
    // lock time is the last 4
    let outputs_bytes = tx[46..tx.len() - 4].to_vec();
    let outs = transaction::decode_outputs(&outputs_bytes).unwrap();
    assert_eq!(outs.len(), 2);
    assert_eq!(outs[0].1, 50_000);
    assert_eq!(outs[1].1, 49_500);
    assert_eq!(outs[1].0, change_script);
    let ms = transaction::build_2_of_2_ms_script(&sender_pk, &receiver_pk);
    assert_eq!(outs[0].0, transaction::build_p2wsh_script_pub_key(&ms));
    // the input spends the reversed txid
    assert_eq!(&tx[0..4], &[2u8, 0, 0, 0]);
    assert_eq!(tx[4], 1);
    assert_eq!(&tx[5..37], vec![0x11u8; 32].as_slice());
    assert_eq!(&tx[37..41], &[1u8, 0, 0, 0]);
}

#[test]
fn funding_transaction_rejects_insufficient_funds() {
    let utxo = UnspentOutput { txid: vec![0x11u8; 32], vout: 0, amount: 40_000 };
    let out = swap::build_funding_transaction(
        &vec![utxo],
        50_000,
        500,
        &vec![0x02u8; 33],
        &vec![0x03u8; 33],
        &vec![0x51u8],
    );
    assert_eq!(out, Err(SwapError::InsufficientFundsError));
    let out2 = swap::build_funding_transaction(
        &Vec::new(),
        1,
        0,
        &vec![0x02u8; 33],
        &vec![0x03u8; 33],
        &vec![0x51u8],
    );
    assert_eq!(out2, Err(SwapError::InsufficientFundsError));
}

#[test]
fn success_transaction_pays_receiver_minus_fee() {
    let txid = vec![0x77u8; 32];
    let receiver_pk = vec![0x03u8; 33];
    let tx = swap::build_success_transaction(&txid, 0, 50_000, 300, &receiver_pk).unwrap();
    let outputs_bytes = tx[46..tx.len() - 4].to_vec();
    let outs = transaction::decode_outputs(&outputs_bytes).unwrap();
    assert_eq!(outs.len(), 1);
    assert_eq!(outs[0].1, 49_700);
    assert_eq!(outs[0].0, transaction::build_script_pub_key_p2wpkh(&receiver_pk));
    assert_eq!(
        swap::build_success_transaction(&txid, 0, 100, 300, &receiver_pk),
        Err(SwapError::InsufficientFundsError)
    );
}

#[test]
fn revoke_transaction_sets_lock_time_and_sequence() {
    let txid = vec![0x77u8; 32];
    let ret = vec![0x51u8];
    let lock_time: u32 = 1_700_000_000;
    let tx = swap::build_revoke_transaction(&txid, 2, 50_000, 300, &ret, lock_time).unwrap();
    // sequence 0xFFFFFFFE just before the output section
    assert_eq!(&tx[42..46], &[0xFEu8, 0xFF, 0xFF, 0xFF]);
    // lock time in the last 4 bytes, little-endian
    let lt = &tx[tx.len() - 4..];
    assert_eq!(lt, lock_time.to_le_bytes().as_slice());
}

#[test]
fn refund_and_timeout_paths_are_explicitly_unimplemented() {
    assert_eq!(swap::build_refund_transaction(), Err(SwapError::NotImplemented));
    assert_eq!(swap::build_timeout_transaction(), Err(SwapError::NotImplemented));
}

#[test]
fn swap_context_walks_the_state_machine() {
    let g = curve::generator();
    let t = vec![0x05u8];
    let statement = curve::multiply(&g, &t).unwrap();
    let mut ctx = swap::SwapContext::new(
        t,
        statement,
        vec![0x42u8],
        vec![0x07u8],
        b"commitment".to_vec(),
    );
    assert_eq!(ctx.state, SwapState::Setup);
    ctx.mark_funded();
    assert_eq!(ctx.state, SwapState::Funded);
    ctx.mark_pre_signed();
    assert_eq!(ctx.state, SwapState::PreSigned);
    ctx.complete();
    assert_eq!(ctx.state, SwapState::Completed);
}

#[test]
fn swap_context_can_abort_before_completion() {
    let g = curve::generator();
    let statement = curve::multiply(&g, &vec![0x05u8]).unwrap();
    let mut ctx = swap::SwapContext::new(
        vec![0x05u8],
        statement,
        vec![0x42u8],
        vec![0x07u8],
        b"m".to_vec(),
    );
    ctx.mark_funded();
    ctx.abort();
    assert_eq!(ctx.state, SwapState::Aborted);
}

#[test]
fn parse_txid_accepts_only_64_hex_digits() {
    let good = "11".repeat(32);
    assert_eq!(swap::parse_txid(&good).unwrap(), vec![0x11u8; 32]);
    assert_eq!(swap::parse_txid("abcd"), Err(SwapError::ParseError));
    assert_eq!(swap::parse_txid("zz"), Err(SwapError::ParseError));
}

#[test]
fn outpoint_reverses_txid_for_the_wire() {
    let mut txid = vec![0u8; 32];
    txid[0] = 0xAB;
    txid[31] = 0xCD;
    let utxo = UnspentOutput { txid, vout: 5, amount: 1 };
    let op = swap::outpoint_bytes(&utxo);
    assert_eq!(op.len(), 36);
    assert_eq!(op[0], 0xCD);
    assert_eq!(op[31], 0xAB);
    assert_eq!(&op[32..], &[5u8, 0, 0, 0]);
}

#[test]
fn transaction_id_is_reversed_double_sha() {
    let tx = vec![0x01u8, 0x02, 0x03];
    let id = swap::transaction_id(&tx);
    let mut expected = hashing::dsha256(&tx);
    expected.reverse();
    assert_eq!(id, expected);
}

#[test]
fn segwit_assembly_exact_layout() {
    let outpoint = vec![0x44u8; 36];
    let witness = transaction::build_p2wsh_witness(&vec![vec![0x30u8, 0x01]], &vec![0x51u8]);
    let tx = swap::assemble_segwit_transaction(
        &vec![outpoint.clone()],
        0xFFFF_FFFF,
        vec![(vec![0x51u8], 9u64)],
        &vec![witness.clone()],
        0,
    );
    let expected: Vec<u8> = [
        vec![2u8, 0, 0, 0],
        vec![0u8, 1u8],
        vec![1u8],
        outpoint,
        vec![0u8],
        vec![0xFFu8, 0xFF, 0xFF, 0xFF],
        vec![1u8],
        9u64.to_le_bytes().to_vec(),
        vec![1u8, 0x51],
        witness,
        vec![0u8, 0, 0, 0],
    ]
    .concat();
    assert_eq!(tx, expected);
}

#[test]
fn balance_error_variant_exists_for_external_queries() {
    let e = BalanceError::MissingCodeCantRun;
    assert_eq!(e, BalanceError::MissingCodeCantRun);
}
