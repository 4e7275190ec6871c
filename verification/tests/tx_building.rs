use atomic_swap::encoding;
use atomic_swap::errors::SwapError;
use atomic_swap::hashing;
use atomic_swap::transaction;

#[test]
fn p2wpkh_script_matches_classic_hash160_vector() {
    let pubkey = hex::decode("0250863ad64a87ae8a2fe83c1af1a8403cb53f53e486d8511dad8a04887e5b2352")
        .unwrap();
    let script = transaction::build_script_pub_key_p2wpkh(&pubkey);
    assert_eq!(
        hex::encode(&script),
        "0014f54a5851e9372b87810a8e60cdd2e7cfd80b6e31"
    );
}

#[test]
fn p2wsh_script_commits_to_script_hash() {
    let witness_script = vec![0x51u8];
    let spk = transaction::build_p2wsh_script_pub_key(&witness_script);
    assert_eq!(spk.len(), 34);
    assert_eq!(spk[0], 0x00);
    assert_eq!(spk[1], 0x20);
    assert_eq!(&spk[2..], hashing::sha256_digest(&witness_script).as_slice());
}

#[test]
fn p2wsh_script_from_hex_rejects_bad_hex() {
    assert_eq!(
        transaction::build_script_pub_key_p2wsh("not hex"),
        Err(SwapError::EncodingError)
    );
    let ok = transaction::build_script_pub_key_p2wsh("51").unwrap();
    assert_eq!(ok, transaction::build_p2wsh_script_pub_key(&vec![0x51u8]));
}

#[test]
fn multisig_script_exact_bytes() {
    let a = vec![0x02u8; 33];
    let b = vec![0x03u8; 33];
    let ms = transaction::build_2_of_2_ms_script(&a, &b);
    let expected: Vec<u8> = [
        vec![0x52u8, 33],
        a.clone(),
        vec![33u8],
        b.clone(),
        vec![0x52u8, 0xAE],
    ]
    .concat();
    assert_eq!(ms, expected);
    assert_eq!(ms.len(), 71);
}

#[test]
fn multisig_script_with_equal_keys() {
    let a = vec![0x02u8; 33];
    let ms = transaction::build_2_of_2_ms_script(&a, &a);
    assert_eq!(ms[0], 0x52);
    assert_eq!(*ms.last().unwrap(), 0xAE);
    assert_eq!(&ms[2..35], &ms[36..69]);
}

#[test]
fn encode_inputs_exact_bytes() {
    let outpoint = vec![0xAAu8; 36];
    let encoded = transaction::encode_inputs(&vec![outpoint.clone()]);
    let expected: Vec<u8> = [
        vec![1u8],
        outpoint,
        vec![0u8],
        vec![0xFFu8, 0xFF, 0xFF, 0xFF],
    ]
    .concat();
    assert_eq!(encoded, expected);
}

#[test]
fn encode_outputs_round_trips_through_decode() {
    let outputs = vec![
        (vec![0x51u8], 1234u64),
        (vec![0x00u8, 0x14u8, 0x07u8], 50_000u64),
    ];
    let encoded = transaction::encode_outputs(outputs.clone());
    let decoded = transaction::decode_outputs(&encoded).unwrap();
    assert_eq!(decoded, outputs);
}

#[test]
fn decode_outputs_rejects_trailing_bytes() {
    let outputs = vec![(vec![0x51u8], 7u64)];
    let mut encoded = transaction::encode_outputs(outputs);
    encoded.push(0);
    assert_eq!(transaction::decode_outputs(&encoded), Err(SwapError::EncodingError));
}

#[test]
fn decode_outputs_rejects_truncated_bytes() {
    let outputs = vec![(vec![0x51u8, 0x52], 7u64)];
    let mut encoded = transaction::encode_outputs(outputs);
    encoded.pop();
    assert_eq!(transaction::decode_outputs(&encoded), Err(SwapError::EncodingError));
}

#[test]
fn witness_assembly_exact_bytes() {
    let sig1 = vec![0x30u8, 0x01, 0x02];
    let sig2 = vec![0x30u8, 0x03];
    let script = vec![0x52u8, 0xAE];
    let w = transaction::build_p2wsh_witness(&vec![sig1.clone(), sig2.clone()], &script);
    let expected: Vec<u8> = [
        vec![4u8],          // item count: placeholder + 2 signatures + script
        vec![0u8],          // empty placeholder item
        vec![3u8],
        sig1,
        vec![2u8],
        sig2,
        vec![2u8],
        script,
    ]
    .concat();
    assert_eq!(w, expected);
}

#[test]
fn signing_a_commitment_hash_yields_der_with_sighash_byte() {
    let key = vec![0x42u8];
    let msg = b"commitment".to_vec();
    let nonce = vec![0x01u8];
    let sig = transaction::sign(&key, &msg, &nonce).unwrap();
    assert_eq!(*sig.last().unwrap(), 0x01);
    let body = sig[..sig.len() - 1].to_vec();
    let (r, _s) = encoding::der_decode(&body).unwrap();
    // nonce 1 makes r the x coordinate of G
    assert_eq!(
        hex::encode(&r),
        "79be667ef9dcbbac55a06295ce870b07029bfcdb2dce28d959f2815b16f81798"
    );
}

#[test]
fn commitment_hash_matches_manual_preimage() {
    let outpoint = vec![0x11u8; 36];
    let scriptcode = vec![0x19u8, 0x76];
    let value = 100_000u64.to_le_bytes().to_vec();
    let output = vec![0xAAu8; 10];
    let hashes = transaction::get_commitment_hash(
        &vec![outpoint.clone()],
        &vec![scriptcode.clone()],
        &vec![value.clone()],
        &vec![output.clone()],
    );
    assert_eq!(hashes.len(), 1);
    let preimage: Vec<u8> = [
        vec![2u8, 0, 0, 0],
        hashing::dsha256(&outpoint),
        hashing::dsha256(&vec![0xFFu8, 0xFF, 0xFF, 0xFF]),
        outpoint,
        scriptcode,
        value,
        vec![0xFFu8, 0xFF, 0xFF, 0xFF],
        hashing::dsha256(&output),
        vec![0u8, 0, 0, 0],
        vec![1u8, 0, 0, 0],
    ]
    .concat();
    assert_eq!(hashes[0], hashing::dsha256(&preimage));
}

#[test]
fn commitment_hash_one_per_input() {
    let outpoints = vec![vec![0x11u8; 36], vec![0x22u8; 36]];
    let scriptcodes = vec![vec![0x01u8], vec![0x02u8]];
    let values = vec![1u64.to_le_bytes().to_vec(), 2u64.to_le_bytes().to_vec()];
    let outputs = vec![vec![0xAAu8; 5]];
    let hashes = transaction::get_commitment_hash(&outpoints, &scriptcodes, &values, &outputs);
    assert_eq!(hashes.len(), 2);
    assert_ne!(hashes[0], hashes[1]);
    assert_eq!(hashes[0].len(), 32);
}
