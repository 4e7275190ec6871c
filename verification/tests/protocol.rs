use atomic_swap::adaptor::{self, Signature};
use atomic_swap::curve::{self, Point};
use atomic_swap::errors::SwapError;
use atomic_swap::hashing;
use num_bigint::BigUint;

const Q_HEX: &str = "fffffffffffffffffffffffffffffffebaaedce6af48a03bbfd25e8cd0364141";

fn q_big() -> BigUint {
    BigUint::parse_bytes(Q_HEX.as_bytes(), 16).unwrap()
}

#[test]
fn pre_verify_accepts_honest_pre_signature() {
    let g = curve::generator();
    let msg = b"hello world".to_vec();
    let x = vec![0x42u8];
    let nonce = vec![0x07u8];
    let t = vec![0x05u8];
    let statement = curve::multiply(&g, &t).unwrap();
    let (r, s_line, pubkey, _r_kt, r_line) = adaptor::pre_sign(&msg, &nonce, &statement, &x)
        .unwrap();
    let ok = adaptor::pre_verify(&msg, &s_line, &r, &r_line, &pubkey).unwrap();
    assert!(ok);
}

#[test]
fn pre_verify_rejects_tampered_partial_signature() {
    let g = curve::generator();
    let msg = b"hello world".to_vec();
    let x = vec![0x42u8];
    let nonce = vec![0x07u8];
    let t = vec![0x05u8];
    let statement = curve::multiply(&g, &t).unwrap();
    let (r, s_line, pubkey, _r_kt, r_line) = adaptor::pre_sign(&msg, &nonce, &statement, &x)
        .unwrap();
    let tampered = ((BigUint::from_bytes_be(&s_line) + BigUint::from(1u8)) % q_big()).to_bytes_be();
    let ok = adaptor::pre_verify(&msg, &tampered, &r, &r_line, &pubkey).unwrap();
    assert!(!ok);
}

#[test]
fn adapt_extract_round_trip_small_secret() {
    let s_line = vec![0x09u8];
    let t = vec![0x05u8];
    let s = adaptor::adapt(&s_line, &t).unwrap();
    let back = adaptor::extract(&s_line, &s).unwrap();
    let got = BigUint::from_bytes_be(&back);
    let q = q_big();
    let tv = BigUint::from(5u8);
    assert!(got == tv || got == (&q - &tv), "extract must recover t or q - t");
}

#[test]
fn adapt_normalizes_to_low_s() {
    // several partial signatures and secrets; the adapted s always lies
    // in [1, q/2]
    let q = q_big();
    let half = &q >> 1;
    for (sl, t) in [(9u32, 5u32), (1234567u32, 3u32), (77u32, 11u32)] {
        let s = adaptor::adapt(&sl.to_be_bytes().to_vec(), &t.to_be_bytes().to_vec()).unwrap();
        let sv = BigUint::from_bytes_be(&s);
        assert!(sv <= half);
        assert!(sv != BigUint::from(0u8));
    }
}

#[test]
fn adapt_rejects_non_invertible_secret() {
    let s_line = vec![0x09u8];
    assert_eq!(adaptor::adapt(&s_line, &vec![0u8]), Err(SwapError::ArithmeticError));
    assert_eq!(
        adaptor::adapt(&s_line, &hex::decode(Q_HEX).unwrap()),
        Err(SwapError::ArithmeticError)
    );
}

#[test]
fn end_to_end_adaptor_signature_scenario() {
    // fixed vectors: nonce 1, message "hello world", small private key
    // and adaptor secret
    let g = curve::generator();
    let msg = b"hello world".to_vec();
    let x = vec![0x42u8];
    let nonce = vec![0x01u8];
    let t = vec![0x05u8];
    let statement = curve::multiply(&g, &t).unwrap();
    let (r, s_line, pubkey, _r_kt, r_line) = adaptor::pre_sign(&msg, &nonce, &statement, &x)
        .unwrap();
    // the pre-signature verifies
    assert!(adaptor::pre_verify(&msg, &s_line, &r, &r_line, &pubkey).unwrap());
    // adapting gives a signature valid under standard ECDSA
    let s = adaptor::adapt(&s_line, &t).unwrap();
    let sig = Signature { r: r.clone(), s: s.clone() };
    assert!(adaptor::verify(&msg, &sig, &pubkey).unwrap());
    // extracting recovers the adaptor secret (up to negation mod q)
    let back = adaptor::extract(&s_line, &s).unwrap();
    let got = BigUint::from_bytes_be(&back);
    let q = q_big();
    assert!(got == BigUint::from(5u8) || got == (&q - BigUint::from(5u8)));
}

#[test]
fn sign_and_verify_plain_ecdsa() {
    let g = curve::generator();
    let msg = b"an ordinary message".to_vec();
    let x = vec![0x37u8, 0x11];
    let nonce = vec![0x0Bu8];
    let sig = adaptor::sign(&x, &msg, &nonce).unwrap();
    let pubkey = curve::multiply(&g, &x).unwrap();
    assert!(adaptor::verify(&msg, &sig, &pubkey).unwrap());
    // a different message must not verify
    let other = b"another message".to_vec();
    assert!(!adaptor::verify(&other, &sig, &pubkey).unwrap());
}

#[test]
fn verify_rejects_out_of_range_components() {
    let g = curve::generator();
    let msg = b"m".to_vec();
    let pubkey = curve::multiply(&g, &vec![0x42u8]).unwrap();
    let zero_r = Signature { r: vec![0u8], s: vec![1u8] };
    assert!(!adaptor::verify(&msg, &zero_r, &pubkey).unwrap());
    let high_s = Signature { r: vec![1u8], s: hex::decode(Q_HEX).unwrap() };
    assert!(!adaptor::verify(&msg, &high_s, &pubkey).unwrap());
}

#[test]
fn pre_sign_with_zero_nonce_is_an_arithmetic_error() {
    let g = curve::generator();
    let msg = b"hello world".to_vec();
    assert_eq!(
        adaptor::pre_sign(&msg, &vec![0u8], &g, &vec![0x42u8]),
        Err(SwapError::ArithmeticError)
    );
}

#[test]
fn pre_sign_detects_degenerate_partial_signature() {
    // with nonce 1 and statement G, s' = z + r*x mod q; choosing
    // x = -z/r mod q forces s' = 0, which must be rejected
    let g = curve::generator();
    let msg = b"hello world".to_vec();
    let q = q_big();
    // with nonce 1 and private key 0, the partial signature equals
    // z = H(m) mod q, which also yields r
    let (r, s0, _, _, _) = adaptor::pre_sign(&msg, &vec![1u8], &g, &Vec::new()).unwrap();
    let zv = BigUint::from_bytes_be(&s0);
    let rv = BigUint::from_bytes_be(&r);
    let rinv = rv.modinv(&q).unwrap();
    let x = ((&q - &zv) * rinv) % &q;
    let out = adaptor::pre_sign(&msg, &vec![1u8], &g, &x.to_bytes_be());
    assert_eq!(out, Err(SwapError::DegenerateSignatureError));
}

#[test]
fn fresh_nonce_pre_signing_verifies() {
    let g = curve::generator();
    let msg = b"hello world".to_vec();
    let x = vec![0x42u8];
    let t = vec![0x05u8];
    let statement = curve::multiply(&g, &t).unwrap();
    let (_nonce, (r, s_line, pubkey, _r_kt, r_line)) =
        adaptor::pre_sign_with_fresh_nonce(&msg, &statement, &x).unwrap();
    assert!(adaptor::pre_verify(&msg, &s_line, &r, &r_line, &pubkey).unwrap());
}

#[test]
fn sha256_matches_known_vector() {
    let d = hashing::sha256_digest(&b"abc".to_vec());
    assert_eq!(
        hex::encode(&d),
        "ba7816bf8f01cfea414140de5dae2223b00361a396177a9cb410ff61f20015ad"
    );
    let e = hashing::sha256_digest(&Vec::new());
    assert_eq!(
        hex::encode(&e),
        "e3b0c44298fc1c149afbf4c8996fb92427ae41e4649b934ca495991b7852b855"
    );
}

#[test]
fn dsha256_is_sha256_twice() {
    let m = b"abc".to_vec();
    let once = hashing::sha256_digest(&m);
    let twice = hashing::sha256_digest(&once);
    assert_eq!(hashing::dsha256(&m), twice);
}
