use atomic_swap::curve::{self, Point};
use atomic_swap::errors::SwapError;
use num_bigint::BigUint;

const Q_HEX: &str = "fffffffffffffffffffffffffffffffebaaedce6af48a03bbfd25e8cd0364141";
const P_HEX: &str = "fffffffffffffffffffffffffffffffffffffffffffffffffffffffefffffc2f";
const G2_X: &str = "c6047f9441ed7d6d3045406e95c07cd85c778e4b8cef3ca7abac09b95c709ee5";
const G2_Y: &str = "1ae168fea63dc339a3c58419466ceaeef7f632653266d0e1236431a950cfe52a";

fn compressed_hex(p: &Point) -> String {
    match p {
        Point::Affine { x, y } => {
            let prefix = if y[y.len() - 1] % 2 == 0 { "02" } else { "03" };
            let xh = hex::encode(x);
            let pad = "0".repeat(64 - xh.len());
            format!("{}{}{}", prefix, pad, xh)
        }
        Point::Infinity => panic!("the point at infinity has no compressed form"),
    }
}

#[test]
fn multiply_generator_by_one_is_generator() {
    let g = curve::generator();
    let r = curve::multiply(&g, &vec![1u8]).unwrap();
    assert!(curve::eq_point(&r, &g));
}

#[test]
fn multiply_generator_by_zero_is_infinity() {
    let g = curve::generator();
    let r = curve::multiply(&g, &vec![0u8]).unwrap();
    assert!(matches!(r, Point::Infinity));
    let r2 = curve::multiply(&g, &Vec::new()).unwrap();
    assert!(matches!(r2, Point::Infinity));
}

#[test]
fn double_generator_matches_known_point() {
    let g = curve::generator();
    let d = curve::double(&g).unwrap();
    match &d {
        Point::Affine { x, y } => {
            assert_eq!(hex::encode(x), G2_X);
            assert_eq!(hex::encode(y), G2_Y);
        }
        Point::Infinity => panic!("doubling G must give an affine point"),
    }
}

#[test]
fn scalar_multiplication_distributes_over_scalar_addition() {
    let g = curve::generator();
    let left = curve::multiply(&g, &vec![5u8]).unwrap();
    let two = curve::multiply(&g, &vec![2u8]).unwrap();
    let three = curve::multiply(&g, &vec![3u8]).unwrap();
    let right = curve::add(&two, &three).unwrap();
    assert!(curve::eq_point(&left, &right));
}

#[test]
fn point_addition_is_commutative() {
    let g = curve::generator();
    let two = curve::multiply(&g, &vec![2u8]).unwrap();
    let three = curve::multiply(&g, &vec![3u8]).unwrap();
    let ab = curve::add(&two, &three).unwrap();
    let ba = curve::add(&three, &two).unwrap();
    assert_eq!(ab, ba);
}

#[test]
fn decompression_inverts_compression_even_parity() {
    let g = curve::generator();
    let p = curve::multiply(&g, &vec![2u8]).unwrap();
    let back = curve::get_y_from_x(&compressed_hex(&p)).unwrap();
    assert!(curve::eq_point(&back, &p));
}

#[test]
fn decompression_inverts_compression_odd_parity() {
    let g = curve::generator();
    // scan a few small multiples for one with an odd y
    let mut found = false;
    for k in 1u8..10 {
        let p = curve::multiply(&g, &vec![k]).unwrap();
        if let Point::Affine { y, .. } = &p {
            if y[y.len() - 1] % 2 == 1 {
                let back = curve::get_y_from_x(&compressed_hex(&p)).unwrap();
                assert!(curve::eq_point(&back, &p));
                found = true;
                break;
            }
        }
    }
    assert!(found);
}

#[test]
fn decompression_of_generator() {
    let g = curve::generator();
    let back = curve::get_y_from_x(&compressed_hex(&g)).unwrap();
    assert!(curve::eq_point(&back, &g));
}

#[test]
fn multiply_by_group_order_is_infinity() {
    let g = curve::generator();
    let q = hex::decode(Q_HEX).unwrap();
    let r = curve::multiply(&g, &q).unwrap();
    assert!(matches!(r, Point::Infinity));
}

#[test]
fn multiply_by_group_order_plus_one_is_generator() {
    let g = curve::generator();
    let q = BigUint::parse_bytes(Q_HEX.as_bytes(), 16).unwrap();
    let q1 = (q + BigUint::from(1u8)).to_bytes_be();
    let r = curve::multiply(&g, &q1).unwrap();
    assert!(curve::eq_point(&r, &g));
}

#[test]
fn adding_mirrored_points_gives_infinity() {
    let g = curve::generator();
    let p = BigUint::parse_bytes(P_HEX.as_bytes(), 16).unwrap();
    match &g {
        Point::Affine { x, y } => {
            let ny = (&p - BigUint::from_bytes_be(y)) % &p;
            let mirrored = Point::Affine { x: x.clone(), y: ny.to_bytes_be() };
            let sum = curve::add(&g, &mirrored).unwrap();
            assert!(matches!(sum, Point::Infinity));
        }
        Point::Infinity => panic!("G is affine"),
    }
}

#[test]
fn adding_infinity_is_identity() {
    let g = curve::generator();
    let r = curve::add(&Point::Infinity, &g).unwrap();
    assert!(curve::eq_point(&r, &g));
    let r2 = curve::add(&g, &Point::Infinity).unwrap();
    assert!(curve::eq_point(&r2, &g));
}

#[test]
fn doubling_a_point_with_zero_y_is_an_arithmetic_error() {
    let bad = Point::Affine { x: vec![1u8], y: vec![0u8] };
    let r = curve::double(&bad);
    assert_eq!(r, Err(SwapError::ArithmeticError));
}

#[test]
fn decompression_rejects_malformed_input() {
    assert_eq!(curve::get_y_from_x("zz"), Err(SwapError::EncodingError));
    assert_eq!(curve::get_y_from_x("02abcd"), Err(SwapError::EncodingError));
    // prefix byte other than 02/03
    let g = curve::generator();
    let mut h = compressed_hex(&g);
    h.replace_range(0..2, "04");
    assert_eq!(curve::get_y_from_x(&h), Err(SwapError::EncodingError));
}
