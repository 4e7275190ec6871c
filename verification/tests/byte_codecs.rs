use atomic_swap::encoding;
use atomic_swap::errors::SwapError;

#[test]
fn compact_size_round_trip_boundary_values() {
    for n in [0u64, 252, 253, 65535, 65536, 4294967295, 4294967296] {
        let e = encoding::encode_compact_size(n);
        let (v, used) = encoding::decode_compact_size(&e, 0).unwrap();
        assert_eq!(v, n);
        assert_eq!(used, e.len());
    }
}

#[test]
fn compact_size_exact_bytes() {
    assert_eq!(encoding::encode_compact_size(0), vec![0u8]);
    assert_eq!(encoding::encode_compact_size(252), vec![252u8]);
    assert_eq!(encoding::encode_compact_size(253), vec![0xFDu8, 0xFD, 0x00]);
    assert_eq!(encoding::encode_compact_size(65535), vec![0xFDu8, 0xFF, 0xFF]);
    assert_eq!(encoding::encode_compact_size(65536), vec![0xFEu8, 0x00, 0x00, 0x01, 0x00]);
    assert_eq!(
        encoding::encode_compact_size(4294967296),
        vec![0xFFu8, 0x00, 0x00, 0x00, 0x00, 0x01, 0x00, 0x00, 0x00]
    );
}

#[test]
fn compact_size_decode_rejects_truncated_input() {
    assert_eq!(encoding::decode_compact_size(&vec![0xFDu8], 0), Err(SwapError::EncodingError));
    assert_eq!(
        encoding::decode_compact_size(&vec![0xFEu8, 1, 2], 0),
        Err(SwapError::EncodingError)
    );
    assert_eq!(encoding::decode_compact_size(&Vec::new(), 0), Err(SwapError::EncodingError));
}

#[test]
fn der_round_trip_with_high_bit() {
    let mut r = vec![0x80u8; 32];
    r[31] = 0x11;
    let mut s = vec![0x7Fu8; 32];
    s[0] = 0xC0;
    let enc = encoding::der_encoding(r.clone(), s.clone());
    // both components get a sign-padding zero
    assert_eq!(enc[0], 0x30);
    assert_eq!(enc[1] as usize, enc.len() - 2);
    assert_eq!(&enc[2..5], &[0x02, 33, 0x00]);
    let (r2, s2) = encoding::der_decode(&enc).unwrap();
    assert_eq!(r2, r);
    assert_eq!(s2, s);
}

#[test]
fn der_round_trip_without_high_bit() {
    let r = vec![0x7Fu8; 32];
    let mut s = vec![0x10u8; 32];
    s[31] = 0x01;
    let enc = encoding::der_encoding(r.clone(), s.clone());
    let expected: Vec<u8> = [
        vec![0x30u8, 68, 0x02, 32],
        r.clone(),
        vec![0x02u8, 32],
        s.clone(),
    ]
    .concat();
    assert_eq!(enc, expected);
    let (r2, s2) = encoding::der_decode(&enc).unwrap();
    assert_eq!(r2, r);
    assert_eq!(s2, s);
}

#[test]
fn der_encoding_of_short_components() {
    let enc = encoding::der_encoding(vec![0x01], vec![0x02]);
    assert_eq!(enc, vec![0x30u8, 6, 0x02, 1, 0x01, 0x02, 1, 0x02]);
}

#[test]
fn der_decode_rejects_malformed_input() {
    assert_eq!(encoding::der_decode(&Vec::new()), Err(SwapError::EncodingError));
    assert_eq!(encoding::der_decode(&vec![0x30u8, 0x00]), Err(SwapError::EncodingError));
    // wrong outer tag
    assert_eq!(
        encoding::der_decode(&vec![0x31u8, 6, 0x02, 1, 1, 0x02, 1, 2]),
        Err(SwapError::EncodingError)
    );
    // inner length runs past the end
    assert_eq!(
        encoding::der_decode(&vec![0x30u8, 4, 0x02, 9, 1, 2]),
        Err(SwapError::EncodingError)
    );
}

#[test]
fn hex_encoding_round_trip() {
    let bytes = vec![0xDEu8, 0xAD, 0xBE, 0xEF, 0x00, 0x12];
    let s = encoding::to_hex(&bytes);
    assert_eq!(s, "deadbeef0012");
    assert_eq!(encoding::from_hex(&s).unwrap(), bytes);
    // upper case decodes too
    assert_eq!(encoding::from_hex("DEADBEEF0012").unwrap(), bytes);
}

#[test]
fn hex_decode_rejects_malformed_input() {
    assert_eq!(encoding::from_hex("abc"), Err(SwapError::EncodingError));
    assert_eq!(encoding::from_hex("zz"), Err(SwapError::EncodingError));
    assert_eq!(encoding::from_hex("").unwrap(), Vec::<u8>::new());
}
