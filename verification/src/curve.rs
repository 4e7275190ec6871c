//! Elliptic-curve point arithmetic over the secp256k1 curve
//! y^2 = x^3 + 7 (mod p).
//!
//! A point is the group identity (the point at infinity) or an affine
//! pair of coordinates carried as big-endian bytes reduced mod the field
//! prime.  The mathematical model `PointV` states every operation with
//! the textbook tangent and chord formulas; a missing modular inverse is
//! an `ArithmeticError`, never a silently substituted value.

use vstd::prelude::*;
use vstd::arithmetic::div_mod::{
    lemma_small_mod, lemma_sub_mod_noop, lemma_mul_mod_noop_left, lemma_mul_mod_noop_right,
    lemma_add_mod_noop, lemma_mod_multiples_vanish, lemma_mod_bound, lemma_div_denominator,
    lemma_fundamental_div_mod, lemma_fundamental_div_mod_converse,
};
use vstd::arithmetic::mul::{lemma_mul_is_associative, lemma_mul_is_commutative};
use vstd::arithmetic::power::pow;
use vstd::arithmetic::power2::{pow2, lemma2_to64, lemma_pow2_adds, lemma_pow2_pos};
use vstd::bits::lemma_u8_shr_is_div;
use crate::bignum::{
    be_to_nat, be_eq, be_lt, big_modinv, big_modpow, mod_add_be, mod_mul_be, mod_sub_be,
    is_inv_mod, has_inv_mod, inv_mod, lemma_inv_mod_is, be_from_limbs, lemma_be_to_nat_parity,
};
use crate::encoding::append_bytes;
use crate::errors::SwapError;

verus! {

/// A 256-bit constant from four 64-bit limbs, most significant first.
pub open spec fn limbs_val(l3: u64, l2: u64, l1: u64, l0: u64) -> nat {
    (((l3 * pow2(64) + l2) * pow2(64) + l1) * pow2(64) + l0) as nat
}

/// The field prime p of secp256k1,
/// 0xFFFFFFFF FFFFFFFF FFFFFFFF FFFFFFFF FFFFFFFF FFFFFFFF FFFFFFFE FFFFFC2F.
pub open spec fn p_val() -> nat {
    limbs_val(0xFFFFFFFF_FFFFFFFF, 0xFFFFFFFF_FFFFFFFF, 0xFFFFFFFF_FFFFFFFF, 0xFFFFFFFE_FFFFFC2F)
}

/// The order q of the group generated by the base point G,
/// 0xFFFFFFFF FFFFFFFF FFFFFFFF FFFFFFFE BAAEDCE6 AF48A03B BFD25E8C D0364141.
pub open spec fn q_val() -> nat {
    limbs_val(0xFFFFFFFF_FFFFFFFF, 0xFFFFFFFF_FFFFFFFE, 0xBAAEDCE6_AF48A03B, 0xBFD25E8C_D0364141)
}

/// The x coordinate of the base point G.
pub open spec fn gx_val() -> nat {
    limbs_val(0x79BE667E_F9DCBBAC, 0x55A06295_CE870B07, 0x029BFCDB_2DCE28D9, 0x59F2815B_16F81798)
}

/// The y coordinate of the base point G.
pub open spec fn gy_val() -> nat {
    limbs_val(0x483ADA77_26A3C465, 0x5DA4FBFC_0E1108A8, 0xFD17B448_A6855419, 0x9C47D08F_FB10D4B8)
}

/// The field prime as 32 big-endian bytes.
pub fn field_prime() -> (r: Vec<u8>)
    ensures
        be_to_nat(r@) == p_val(),
        r@.len() == 32,
{
    let v = be_from_limbs(
        0xFFFFFFFF_FFFFFFFF,
        0xFFFFFFFF_FFFFFFFF,
        0xFFFFFFFF_FFFFFFFF,
        0xFFFFFFFE_FFFFFC2F,
    );
    proof {
        lemma2_to64();
    }
    v
}

/// The curve order as 32 big-endian bytes.
pub fn curve_order() -> (r: Vec<u8>)
    ensures
        be_to_nat(r@) == q_val(),
        r@.len() == 32,
{
    let v = be_from_limbs(
        0xFFFFFFFF_FFFFFFFF,
        0xFFFFFFFF_FFFFFFFE,
        0xBAAEDCE6_AF48A03B,
        0xBFD25E8C_D0364141,
    );
    proof {
        lemma2_to64();
    }
    v
}

/// The exponent (p + 1) / 4 used to take square roots mod p, valid
/// because p = 3 (mod 4).
pub fn sqrt_exponent() -> (r: Vec<u8>)
    ensures
        be_to_nat(r@) == (p_val() + 1) / 4,
        r@.len() == 32,
{
    let v = be_from_limbs(
        0x3FFFFFFF_FFFFFFFF,
        0xFFFFFFFF_FFFFFFFF,
        0xFFFFFFFF_FFFFFFFF,
        0xFFFFFFFF_BFFFFF0C,
    );
    proof {
        lemma2_to64();
    }
    v
}

/// Any four-limb constant lies below 2^256.
pub proof fn lemma_limbs_val_bound(l3: u64, l2: u64, l1: u64, l0: u64)
    ensures
        limbs_val(l3, l2, l1, l0) < pow2(256),
{
    lemma2_to64();
    lemma_pow2_adds(64, 64);
    lemma_pow2_adds(128, 64);
    lemma_pow2_adds(192, 64);
    let p64 = pow2(64) as int;
    assert(((l3 * p64 + l2) * p64 + l1) * p64 + l0 < p64 * p64 * p64 * p64) by (nonlinear_arith)
        requires
            l3 < p64,
            l2 < p64,
            l1 < p64,
            l0 < p64,
            p64 > 0,
    ;
    assert(pow2(256) == ((pow2(64) * pow2(64)) * pow2(64)) * pow2(64));
}

/// A curve point in the mathematical model: the point at infinity or
/// affine coordinates, each an integer in [0, p).
pub enum PointV {
    Infinity,
    Affine { x: int, y: int },
}

/// A curve point: the group identity (point at infinity) or an affine
/// point with big-endian coordinate bytes.
#[derive(Clone, Debug, PartialEq, Eq)]
pub enum Point {
    Infinity,
    Affine { x: Vec<u8>, y: Vec<u8> },
}

impl View for Point {
    type V = PointV;

    open spec fn view(&self) -> PointV {
        match self {
            Point::Infinity => PointV::Infinity,
            Point::Affine { x, y } => PointV::Affine {
                x: be_to_nat(x@) as int,
                y: be_to_nat(y@) as int,
            },
        }
    }
}

impl Point {
    /// Well-formed: affine coordinates are reduced below the field prime.
    pub open spec fn wf(&self) -> bool {
        match self {
            Point::Infinity => true,
            Point::Affine { x, y } => be_to_nat(x@) < p_val() && be_to_nat(y@) < p_val(),
        }
    }
}

/// The base point G in the model.
pub open spec fn gen_v() -> PointV {
    PointV::Affine { x: gx_val() as int, y: gy_val() as int }
}

/// The base point G.
pub fn generator() -> (r: Point)
    ensures
        r@ == gen_v(),
        r.wf(),
{
    let x = be_from_limbs(
        0x79BE667E_F9DCBBAC,
        0x55A06295_CE870B07,
        0x029BFCDB_2DCE28D9,
        0x59F2815B_16F81798,
    );
    let y = be_from_limbs(
        0x483ADA77_26A3C465,
        0x5DA4FBFC_0E1108A8,
        0xFD17B448_A6855419,
        0x9C47D08F_FB10D4B8,
    );
    proof {
        lemma2_to64();
    }
    Point::Affine { x, y }
}

/// An owned copy of a point, denoting the same model point.
pub fn copy_point(point: &Point) -> (r: Point)
    ensures
        r@ == point@,
        r.wf() == point.wf(),
{
    match point {
        Point::Infinity => Point::Infinity,
        Point::Affine { x, y } => {
            let mut cx: Vec<u8> = Vec::new();
            append_bytes(&mut cx, x);
            let mut cy: Vec<u8> = Vec::new();
            append_bytes(&mut cy, y);
            proof {
                assert(Seq::<u8>::empty() + x@ =~= x@);
                assert(Seq::<u8>::empty() + y@ =~= y@);
            }
            Point::Affine { x: cx, y: cy }
        },
    }
}

/// Model equality of two points.
pub fn eq_point(a: &Point, b: &Point) -> (r: bool)
    ensures
        r == (a@ == b@),
{
    match (a, b) {
        (Point::Infinity, Point::Infinity) => true,
        (Point::Affine { x: ax, y: ay }, Point::Affine { x: bx, y: by }) => be_eq(ax, bx) && be_eq(
            ay,
            by,
        ),
        _ => false,
    }
}

/// Doubling is defined where the tangent has a slope: 2y invertible
/// mod p.
pub open spec fn pt_double_ok(p: PointV) -> bool {
    match p {
        PointV::Infinity => true,
        PointV::Affine { x, y } => has_inv_mod((2 * y) % (p_val() as int), p_val() as int),
    }
}

/// Doubling in the model: the tangent-line formulas mod p.
pub open spec fn pt_double(p: PointV) -> PointV {
    match p {
        PointV::Infinity => PointV::Infinity,
        PointV::Affine { x, y } => {
            let m = p_val() as int;
            let l = (3 * x * x * inv_mod((2 * y) % m, m)) % m;
            let xr = (l * l - 2 * x) % m;
            let yr = (l * (x - xr) - y) % m;
            PointV::Affine { x: xr, y: yr }
        },
    }
}

/// Addition is defined except on a chord with no slope, which can only
/// fail when x1 - x2 has no inverse mod p.
pub open spec fn pt_add_ok(a: PointV, b: PointV) -> bool {
    match (a, b) {
        (PointV::Infinity, _) => true,
        (_, PointV::Infinity) => true,
        (PointV::Affine { x: x1, y: y1 }, PointV::Affine { x: x2, y: y2 }) => {
            if x1 == x2 && y1 == y2 {
                pt_double_ok(a)
            } else if x1 == x2 {
                true
            } else {
                has_inv_mod((x1 - x2) % (p_val() as int), p_val() as int)
            }
        },
    }
}

/// The group operation in the model: infinity is the identity, equal
/// points double, a vertical chord meets the curve again at infinity,
/// and otherwise the chord formulas mod p apply.
pub open spec fn pt_add(a: PointV, b: PointV) -> PointV {
    match (a, b) {
        (PointV::Infinity, _) => b,
        (_, PointV::Infinity) => a,
        (PointV::Affine { x: x1, y: y1 }, PointV::Affine { x: x2, y: y2 }) => {
            if x1 == x2 && y1 == y2 {
                pt_double(a)
            } else if x1 == x2 {
                PointV::Infinity
            } else {
                let m = p_val() as int;
                let l = ((y1 - y2) * inv_mod((x1 - x2) % m, m)) % m;
                let xr = (l * l - x1 - x2) % m;
                let yr = (l * (x1 - xr) - y1) % m;
                PointV::Affine { x: xr, y: yr }
            }
        },
    }
}

/// Doubles a curve point; the error is ArithmeticError exactly when the
/// tangent slope does not exist.
pub fn double(point: &Point) -> (r: Result<Point, SwapError>)
    requires
        point.wf(),
    ensures
        r matches Ok(q) ==> pt_double_ok(point@) && q@ == pt_double(point@) && q.wf(),
        r matches Err(e) ==> !pt_double_ok(point@) && e == SwapError::ArithmeticError,
{
    match point {
        Point::Infinity => Ok(Point::Infinity),
        Point::Affine { x, y } => {
            let p = field_prime();
            let ghost m = p_val() as int;
            let ghost xv = be_to_nat(x@) as int;
            let ghost yv = be_to_nat(y@) as int;
            let y2 = mod_add_be(y, y, &p);
            proof {
                assert(be_to_nat(y2@) as int == (2 * yv) % m);
            }
            match big_modinv(&y2, &p) {
                None => {
                    proof {
                        assert forall|i: int| !(#[trigger] is_inv_mod((2 * yv) % m, i, m)) by {
                            if 0 <= i < m {
                                assert((be_to_nat(y2@) * (i as nat)) % be_to_nat(p@) != 1);
                            }
                        }
                        assert(!has_inv_mod((2 * yv) % m, m));
                    }
                    Err(SwapError::ArithmeticError)
                },
                Some(iv) => {
                    let ghost ivv = be_to_nat(iv@) as int;
                    proof {
                        lemma_inv_mod_is((2 * yv) % m, ivv, m);
                    }
                    let mut three: Vec<u8> = Vec::new();
                    three.push(3u8);
                    proof {
                        assert(three@.drop_last() =~= Seq::<u8>::empty());
                        assert(three@.last() == 3u8);
                        assert(be_to_nat(Seq::<u8>::empty()) == 0);
                        assert(be_to_nat(three@) == 3);
                    }
                    let x2 = mod_mul_be(x, x, &p);
                    let t1 = mod_mul_be(&three, &x2, &p);
                    let l = mod_mul_be(&t1, &iv, &p);
                    let l2 = mod_mul_be(&l, &l, &p);
                    let tx = mod_add_be(x, x, &p);
                    let xr = mod_sub_be(&l2, &tx, &p);
                    let d = mod_sub_be(x, &xr, &p);
                    let t2 = mod_mul_be(&l, &d, &p);
                    let yr = mod_sub_be(&t2, y, &p);
                    proof {
                        let ls = (3 * xv * xv * ivv) % m;
                        assert((3 * (xv * xv)) * ivv == 3 * xv * xv * ivv) by {
                            lemma_mul_is_associative(3, xv, xv);
                        }
                        assert(be_to_nat(t1@) as int == (3 * (xv * xv)) % m) by {
                            lemma_mul_mod_noop_right(3, xv * xv, m);
                        }
                        assert(be_to_nat(l@) as int == ls) by {
                            lemma_mul_mod_noop_left(3 * (xv * xv), ivv, m);
                        }
                        assert(be_to_nat(xr@) as int == (ls * ls - 2 * xv) % m) by {
                            lemma_sub_mod_noop(ls * ls, 2 * xv, m);
                        }
                        let xrv = (ls * ls - 2 * xv) % m;
                        assert(be_to_nat(t2@) as int == (ls * (xv - xrv)) % m) by {
                            lemma_mul_mod_noop_right(ls, xv - xrv, m);
                        }
                        assert(be_to_nat(yr@) as int == (ls * (xv - xrv) - yv) % m) by {
                            lemma_sub_mod_noop(ls * (xv - xrv), yv, m);
                            lemma_small_mod(yv as nat, m as nat);
                        }
                    }
                    Ok(Point::Affine { x: xr, y: yr })
                },
            }
        },
    }
}

/// Adds two curve points; the error is ArithmeticError exactly when a
/// needed modular inverse does not exist.
pub fn add(point_1: &Point, point_2: &Point) -> (r: Result<Point, SwapError>)
    requires
        point_1.wf(),
        point_2.wf(),
    ensures
        r matches Ok(q) ==> pt_add_ok(point_1@, point_2@) && q@ == pt_add(point_1@, point_2@)
            && q.wf(),
        r matches Err(e) ==> !pt_add_ok(point_1@, point_2@) && e == SwapError::ArithmeticError,
{
    match (point_1, point_2) {
        (Point::Infinity, _) => Ok(copy_point(point_2)),
        (_, Point::Infinity) => Ok(copy_point(point_1)),
        (Point::Affine { x: x1, y: y1 }, Point::Affine { x: x2, y: y2 }) => {
            let ghost m = p_val() as int;
            let ghost x1v = be_to_nat(x1@) as int;
            let ghost y1v = be_to_nat(y1@) as int;
            let ghost x2v = be_to_nat(x2@) as int;
            let ghost y2v = be_to_nat(y2@) as int;
            if be_eq(x1, x2) && be_eq(y1, y2) {
                double(point_1)
            } else if be_eq(x1, x2) {
                Ok(Point::Infinity)
            } else {
                let p = field_prime();
                let dx = mod_sub_be(x1, x2, &p);
                proof {
                    assert(be_to_nat(dx@) as int == (x1v - x2v) % m);
                }
                match big_modinv(&dx, &p) {
                    None => {
                        proof {
                            assert forall|i: int| !(#[trigger] is_inv_mod((x1v - x2v) % m, i, m)) by {
                                if 0 <= i < m {
                                    assert((be_to_nat(dx@) * (i as nat)) % be_to_nat(p@) != 1);
                                }
                            }
                            assert(!has_inv_mod((x1v - x2v) % m, m));
                        }
                        Err(SwapError::ArithmeticError)
                    },
                    Some(iv) => {
                        let ghost ivv = be_to_nat(iv@) as int;
                        proof {
                            lemma_inv_mod_is((x1v - x2v) % m, ivv, m);
                        }
                        let dy = mod_sub_be(y1, y2, &p);
                        let l = mod_mul_be(&dy, &iv, &p);
                        let l2 = mod_mul_be(&l, &l, &p);
                        let t1 = mod_sub_be(&l2, x1, &p);
                        let xr = mod_sub_be(&t1, x2, &p);
                        let d = mod_sub_be(x1, &xr, &p);
                        let t2 = mod_mul_be(&l, &d, &p);
                        let yr = mod_sub_be(&t2, y1, &p);
                        proof {
                            let ls = ((y1v - y2v) * ivv) % m;
                            assert(be_to_nat(l@) as int == ls) by {
                                lemma_mul_mod_noop_left(y1v - y2v, ivv, m);
                            }
                            assert(be_to_nat(t1@) as int == (ls * ls - x1v) % m) by {
                                lemma_sub_mod_noop(ls * ls, x1v, m);
                                lemma_small_mod(x1v as nat, m as nat);
                            }
                            assert(be_to_nat(xr@) as int == (ls * ls - x1v - x2v) % m) by {
                                lemma_sub_mod_noop(ls * ls - x1v, x2v, m);
                                lemma_small_mod(x2v as nat, m as nat);
                            }
                            let xrv = (ls * ls - x1v - x2v) % m;
                            assert(be_to_nat(t2@) as int == (ls * (x1v - xrv)) % m) by {
                                lemma_mul_mod_noop_right(ls, x1v - xrv, m);
                            }
                            assert(be_to_nat(yr@) as int == (ls * (x1v - xrv) - y1v) % m) by {
                                lemma_sub_mod_noop(ls * (x1v - xrv), y1v, m);
                                lemma_small_mod(y1v as nat, m as nat);
                            }
                        }
                        Ok(Point::Affine { x: xr, y: yr })
                    },
                }
            }
        },
    }
}

/// The value of a bit string, most significant bit first.
pub open spec fn bits_val(s: Seq<bool>) -> nat
    decreases s.len(),
{
    if s.len() == 0 {
        0
    } else {
        (2 * bits_val(s.drop_last()) + (if s.last() {
            1nat
        } else {
            0nat
        })) as nat
    }
}

/// A bit string denotes less than 2 to the power of its length.
pub proof fn lemma_bits_val_bound(s: Seq<bool>)
    ensures
        bits_val(s) < pow2(s.len()),
    decreases s.len(),
{
    if s.len() == 0 {
        lemma2_to64();
    } else {
        lemma_bits_val_bound(s.drop_last());
        lemma_pow2_adds((s.len() - 1) as nat, 1);
        lemma2_to64();
        let b = bits_val(s.drop_last());
        let p1 = pow2((s.len() - 1) as nat);
        assert(2 * b + 1 < 2 * p1) by (nonlinear_arith)
            requires
                b < p1,
        ;
    }
}

/// Splitting a bit string at index i splits its value, and the low part
/// is bounded by the power of its width.
pub proof fn lemma_bits_split(s: Seq<bool>, i: int)
    requires
        0 <= i <= s.len(),
    ensures
        bits_val(s) == bits_val(s.subrange(0, i)) * pow2((s.len() - i) as nat) + bits_val(
            s.subrange(i, s.len() as int),
        ),
        bits_val(s.subrange(i, s.len() as int)) < pow2((s.len() - i) as nat),
    decreases s.len() - i,
{
    let n = s.len() as int;
    lemma_bits_val_bound(s.subrange(i, n));
    if i == n {
        assert(s.subrange(0, n) =~= s);
        assert(s.subrange(n, n) =~= Seq::<bool>::empty());
        lemma2_to64();
        assert(bits_val(Seq::<bool>::empty()) == 0);
        assert(bits_val(s.subrange(0, n)) == bits_val(s));
        assert(pow2(0) == 1);
        assert(bits_val(s) * pow2(0) == bits_val(s)) by (nonlinear_arith)
            requires
                pow2(0) == 1,
        ;
    } else {
        lemma_bits_split(s.drop_last(), i);
        let t = s.drop_last();
        assert(t.subrange(0, i) =~= s.subrange(0, i));
        assert(t.subrange(i, t.len() as int) =~= s.subrange(i, n).drop_last());
        assert(s.subrange(i, n).last() == s.last());
        let a = bits_val(s.subrange(0, i));
        let c = bits_val(s.subrange(i, n).drop_last());
        let bitv: nat = if s.last() {
            1nat
        } else {
            0nat
        };
        lemma_pow2_adds((n - 1 - i) as nat, 1);
        lemma2_to64();
        let p1 = pow2((n - 1 - i) as nat);
        assert(bits_val(s) == 2 * (a * p1 + c) + bitv);
        assert(bits_val(s.subrange(i, n)) == 2 * c + bitv);
        assert(2 * (a * p1 + c) + bitv == a * (p1 * 2) + (2 * c + bitv)) by (nonlinear_arith);
        assert(pow2((n - i) as nat) == p1 * 2);
        assert(bits_val(s) == a * pow2((n - i) as nat) + bits_val(s.subrange(i, n)));
    }
}

/// The bits of a byte string, most significant bit first.
pub fn be_to_bits(s: &Vec<u8>) -> (r: Vec<bool>)
    ensures
        r@.len() == 8 * s@.len(),
        bits_val(r@) == be_to_nat(s@),
{
    let n = s.len();
    let mut r: Vec<bool> = Vec::new();
    let mut i: usize = 0;
    proof {
        assert(s@.subrange(0, 0) =~= Seq::<u8>::empty());
    }
    while i < n
        invariant
            i <= n,
            n == s@.len(),
            r@.len() == 8 * i,
            bits_val(r@) == be_to_nat(s@.subrange(0, i as int)),
        decreases n - i,
    {
        let b = s[i];
        let mut j: usize = 0;
        proof {
            lemma2_to64();
            assert((b as nat) / pow2(8) == 0);
        }
        while j < 8
            invariant
                j <= 8,
                i < n,
                n == s@.len(),
                b == s@[i as int],
                r@.len() == 8 * i + j,
                bits_val(r@) == be_to_nat(s@.subrange(0, i as int)) * pow2(j as nat) + (b as nat)
                    / pow2((8 - j) as nat),
            decreases 8 - j,
        {
            let sh: u8 = 7 - (j as u8);
            let bit = ((b >> sh) & 1) == 1;
            let ghost prev = r@;
            r.push(bit);
            proof {
                lemma2_to64();
                assert(r@.drop_last() =~= prev);
                assert(r@.last() == bit);
                lemma_u8_shr_is_div(b, sh);
                let d = (b as nat) / pow2((7 - j) as nat);
                assert((7 - j) as nat == sh as nat);
                assert(((b >> sh) & 1) == (b >> sh) % 2) by (bit_vector);
                let bitv: nat = if bit {
                    1nat
                } else {
                    0nat
                };
                assert(bitv == d % 2);
                lemma_pow2_pos((7 - j) as nat);
                lemma_pow2_adds((7 - j) as nat, 1);
                lemma_div_denominator(b as int, pow2((7 - j) as nat) as int, 2);
                assert(d / 2 == (b as nat) / pow2((8 - j) as nat));
                assert(d == 2 * (d / 2) + d % 2);
                let a = be_to_nat(s@.subrange(0, i as int)) as int;
                let pj = pow2(j as nat) as int;
                lemma_pow2_adds(j as nat, 1);
                assert(bits_val(r@) == 2 * bits_val(prev) + bitv);
                assert(2 * (a * pj + d / 2) + d % 2 == a * (pj * 2) + d) by (nonlinear_arith)
                    requires
                        d == 2 * (d / 2) + d % 2,
                ;
            }
            j = j + 1;
        }
        proof {
            lemma2_to64();
            let t = s@.subrange(0, i + 1);
            assert(t.drop_last() =~= s@.subrange(0, i as int));
            assert(t.last() == b);
            assert((b as nat) / pow2(0) == b as nat);
            assert(be_to_nat(t) == 256 * be_to_nat(s@.subrange(0, i as int)) + b);
            assert(bits_val(r@) == be_to_nat(s@.subrange(0, i as int)) * pow2(8) + b);
            assert(be_to_nat(s@.subrange(0, i as int)) * pow2(8) == 256 * be_to_nat(
                s@.subrange(0, i as int),
            )) by (nonlinear_arith)
                requires
                    pow2(8) == 256,
            ;
            assert(bits_val(r@) == be_to_nat(t));
        }
        i = i + 1;
    }
    proof {
        assert(s@.subrange(0, n as int) =~= s@);
    }
    r
}

/// k·P by binary double-and-add: halve the scalar, double the result,
/// and add P once more on an odd scalar; 0·P is the point at infinity.
pub open spec fn pt_mul(p: PointV, k: nat) -> PointV
    decreases k,
{
    if k == 0 {
        PointV::Infinity
    } else {
        let h = pt_double(pt_mul(p, k / 2));
        if k % 2 == 1 {
            pt_add(h, p)
        } else {
            h
        }
    }
}

/// Every doubling and addition along the double-and-add recursion is
/// defined.
pub open spec fn pt_mul_ok(p: PointV, k: nat) -> bool
    decreases k,
{
    if k == 0 {
        true
    } else {
        pt_mul_ok(p, k / 2) && pt_double_ok(pt_mul(p, k / 2)) && (k % 2 == 1 ==> pt_add_ok(
            pt_double(pt_mul(p, k / 2)),
            p,
        ))
    }
}

/// One binary step of the double-and-add recursion.
pub proof fn lemma_pt_mul_step(p: PointV, v: nat, b: nat)
    requires
        b < 2,
    ensures
        pt_mul(p, (2 * v + b) as nat) == (if b == 1 {
            pt_add(pt_double(pt_mul(p, v)), p)
        } else {
            pt_double(pt_mul(p, v))
        }),
        pt_mul_ok(p, (2 * v + b) as nat) == (pt_mul_ok(p, v) && pt_double_ok(pt_mul(p, v)) && (b
            == 1 ==> pt_add_ok(pt_double(pt_mul(p, v)), p))),
{
    let k = (2 * v + b) as nat;
    if k == 0 {
        assert(pt_mul(p, 0) == PointV::Infinity);
        assert(pt_double(PointV::Infinity) == PointV::Infinity);
    } else {
        assert(k / 2 == v && k % 2 == b);
    }
}

/// A failure at any bit prefix of the scalar is a failure for the whole
/// scalar: the recursion descends through exactly the bit prefixes.
pub proof fn lemma_pt_mul_ok_extend(p: PointV, w: nat, r: nat, rest: nat)
    requires
        rest < pow2(r),
        !pt_mul_ok(p, w),
    ensures
        !pt_mul_ok(p, (w * pow2(r) + rest) as nat),
    decreases r,
{
    if r == 0 {
        lemma2_to64();
        assert(w * pow2(0) + rest == w * 1 + 0);
    } else {
        if w == 0 {
            assert(pt_mul_ok(p, 0));
        } else {
            let k = (w * pow2(r) + rest) as nat;
            lemma_pow2_adds((r - 1) as nat, 1);
            lemma2_to64();
            lemma_pow2_pos((r - 1) as nat);
            let half = (w * pow2((r - 1) as nat) + rest / 2) as nat;
            assert(k == 2 * half + (rest % 2)) by (nonlinear_arith)
                requires
                    pow2(r) == pow2((r - 1) as nat) * 2,
                    rest == 2 * (rest / 2) + rest % 2,
                    k == w * pow2(r) + rest,
                    half == w * pow2((r - 1) as nat) + rest / 2,
            ;
            lemma_fundamental_div_mod_converse(k as int, 2, half as int, (rest % 2) as int);
            assert(rest / 2 < pow2((r - 1) as nat));
            lemma_pt_mul_ok_extend(p, w, (r - 1) as nat, rest / 2);
            assert(k >= pow2(r)) by (nonlinear_arith)
                requires
                    w >= 1,
                    pow2(r) > 0,
                    k == w * pow2(r) + rest,
            ;
            assert(k != 0);
        }
    }
}

/// Scalar multiplication k·P by binary double-and-add over the bits of
/// the scalar, most significant first; a zero scalar yields the point at
/// infinity, and the error is ArithmeticError exactly when a step of the
/// recursion is undefined.
pub fn multiply(point: &Point, scalar: &Vec<u8>) -> (r: Result<Point, SwapError>)
    requires
        point.wf(),
    ensures
        r matches Ok(q) ==> pt_mul_ok(point@, be_to_nat(scalar@)) && q@ == pt_mul(
            point@,
            be_to_nat(scalar@),
        ) && q.wf(),
        r matches Err(e) ==> !pt_mul_ok(point@, be_to_nat(scalar@)) && e
            == SwapError::ArithmeticError,
{
    let bits = be_to_bits(scalar);
    let ghost k = be_to_nat(scalar@);
    let n = bits.len();
    let mut acc = Point::Infinity;
    let mut t: usize = 0;
    proof {
        assert(bits@.subrange(0, 0) =~= Seq::<bool>::empty());
    }
    while t < n
        invariant
            t <= n,
            n == bits@.len(),
            bits_val(bits@) == k,
            k == be_to_nat(scalar@),
            point.wf(),
            acc.wf(),
            pt_mul_ok(point@, bits_val(bits@.subrange(0, t as int))),
            acc@ == pt_mul(point@, bits_val(bits@.subrange(0, t as int))),
        decreases n - t,
    {
        let ghost v = bits_val(bits@.subrange(0, t as int));
        let ghost b: nat = if bits@[t as int] {
            1nat
        } else {
            0nat
        };
        proof {
            assert(bits@.subrange(0, t + 1).drop_last() =~= bits@.subrange(0, t as int));
            assert(bits@.subrange(0, t + 1).last() == bits@[t as int]);
            assert(bits_val(bits@.subrange(0, t + 1)) == 2 * v + b);
            lemma_pt_mul_step(point@, v, b);
            lemma_bits_split(bits@, t + 1);
        }
        let doubled = match double(&acc) {
            Ok(q) => q,
            Err(e) => {
                proof {
                    lemma_pt_mul_ok_extend(
                        point@,
                        (2 * v + b) as nat,
                        (n - t - 1) as nat,
                        bits_val(bits@.subrange(t + 1, n as int)),
                    );
                }
                return Err(e);
            },
        };
        let next = if bits[t] {
            match crate::curve::add(&doubled, point) {
                Ok(q) => q,
                Err(e) => {
                    proof {
                        lemma_pt_mul_ok_extend(
                            point@,
                            (2 * v + b) as nat,
                            (n - t - 1) as nat,
                            bits_val(bits@.subrange(t + 1, n as int)),
                        );
                    }
                    return Err(e);
                },
            }
        } else {
            doubled
        };
        acc = next;
        t = t + 1;
    }
    proof {
        assert(bits@.subrange(0, n as int) =~= bits@);
    }
    Ok(acc)
}

/// The y value decompression yields for an x coordinate and a parity
/// prefix byte: the candidate root w = (x^3 + 7)^((p+1)/4) mod p, negated
/// mod p when its parity does not match the prefix (0x02 asks for even y,
/// 0x03 for odd y).
pub open spec fn decompress_y(prefix: u8, x: nat) -> nat {
    let m = p_val();
    let ysq = (x * x * x + 7) % m;
    let w = (pow(ysq as int, (m + 1) / 4) % (m as int)) as nat;
    if (prefix == 2 && w % 2 == 0) || (prefix == 3 && w % 2 == 1) {
        w
    } else {
        ((m - w) % (m as int)) as nat
    }
}

/// A compressed-key hex string is well formed: valid hex denoting 33
/// bytes, a parity prefix of 0x02 or 0x03, and an x below the field
/// prime.
pub open spec fn compressed_hex_ok(s: Seq<char>) -> bool {
    &&& crate::encoding::valid_hex(s)
    &&& crate::encoding::hex_bytes(s).len() == 33
    &&& (crate::encoding::hex_bytes(s)[0] == 2 || crate::encoding::hex_bytes(s)[0] == 3)
    &&& be_to_nat(crate::encoding::hex_bytes(s).subrange(1, 33)) < p_val()
}

/// Decompresses a point from its compressed-key hex string (prefix byte
/// plus x coordinate); the error is EncodingError exactly when the
/// string is not a well-formed compressed key.
pub fn get_y_from_x(x_hex: &str) -> (r: Result<Point, SwapError>)
    ensures
        r matches Ok(pt) ==> compressed_hex_ok(x_hex@) && pt.wf() && pt@ == (PointV::Affine {
            x: be_to_nat(crate::encoding::hex_bytes(x_hex@).subrange(1, 33)) as int,
            y: decompress_y(
                crate::encoding::hex_bytes(x_hex@)[0],
                be_to_nat(crate::encoding::hex_bytes(x_hex@).subrange(1, 33)),
            ) as int,
        }),
        r matches Err(e) ==> !compressed_hex_ok(x_hex@) && e == SwapError::EncodingError,
{
    let bytes = match crate::encoding::hex_decode(x_hex) {
        Some(v) => v,
        None => {
            return Err(SwapError::EncodingError);
        },
    };
    if bytes.len() != 33 {
        return Err(SwapError::EncodingError);
    }
    let prefix = bytes[0];
    if prefix != 2 && prefix != 3 {
        return Err(SwapError::EncodingError);
    }
    let mut xb: Vec<u8> = Vec::new();
    let mut i: usize = 1;
    while i < 33
        invariant
            1 <= i <= 33,
            bytes@.len() == 33,
            xb@ =~= bytes@.subrange(1, i as int),
        decreases 33 - i,
    {
        xb.push(bytes[i]);
        proof {
            assert(xb@ =~= bytes@.subrange(1, i + 1));
        }
        i = i + 1;
    }
    let p = field_prime();
    if !be_lt(&xb, &p) {
        return Err(SwapError::EncodingError);
    }
    let ghost m = p_val();
    let ghost xv = be_to_nat(xb@);
    let x2 = mod_mul_be(&xb, &xb, &p);
    let x3 = mod_mul_be(&x2, &xb, &p);
    let mut seven: Vec<u8> = Vec::new();
    seven.push(7u8);
    proof {
        assert(seven@.drop_last() =~= Seq::<u8>::empty());
        assert(be_to_nat(Seq::<u8>::empty()) == 0);
        assert(be_to_nat(seven@) == 7);
    }
    let ysq = mod_add_be(&x3, &seven, &p);
    proof {
        assert(be_to_nat(x3@) == ((xv * xv) % m * xv) % m);
        assert(be_to_nat(x3@) == (xv * xv * xv) % m) by {
            lemma_mul_mod_noop_left((xv * xv) as int, xv as int, m as int);
        }
        assert(be_to_nat(ysq@) == (xv * xv * xv + 7) % m) by {
            lemma_add_mod_noop((xv * xv * xv) as int, 7int, m as int);
            lemma_small_mod(7nat, m);
            assert(((xv * xv * xv) % m + 7) % m == (xv * xv * xv + 7) % m);
        }
    }
    let e = sqrt_exponent();
    let w = big_modpow(&ysq, &e, &p);
    proof {
        lemma_mod_bound(pow(be_to_nat(ysq@) as int, be_to_nat(e@)), m as int);
    }
    let wlen = w.len();
    let last = w[wlen - 1];
    proof {
        lemma_be_to_nat_parity(w@);
    }
    let even = last % 2 == 0;
    if (prefix == 2 && even) || (prefix == 3 && !even) {
        Ok(Point::Affine { x: xb, y: w })
    } else {
        let mut zero: Vec<u8> = Vec::new();
        let y = mod_sub_be(&zero, &w, &p);
        proof {
            lemma_mod_multiples_vanish(1, (0 - be_to_nat(w@) as int) as int, m as int);
            assert((m as int) * 1 + (0 - be_to_nat(w@) as int) == m - be_to_nat(w@));
        }
        Ok(Point::Affine { x: xb, y })
    }
}

/// Decompression answers the prefix: the y it yields is even for a
/// prefix of 0x02 and odd for 0x03, whenever the candidate root is
/// nonzero (a zero root has no odd counterpart mod p).
pub proof fn lemma_decompress_parity(prefix: u8, x: nat)
    requires
        prefix == 2 || prefix == 3,
        ({
            let m = p_val();
            let ysq = (x * x * x + 7) % m;
            pow(ysq as int, (m + 1) / 4) % (m as int) != 0
        }),
    ensures
        decompress_y(prefix, x) % 2 == (if prefix == 2 {
            0nat
        } else {
            1nat
        }),
{
    lemma2_to64();
    let m = p_val();
    assert(m % 2 == 1);
    let ysq = (x * x * x + 7) % m;
    let w = (pow(ysq as int, (m + 1) / 4) % (m as int)) as nat;
    lemma_mod_bound(pow(ysq as int, (m + 1) / 4), m as int);
    assert(0 < w < m);
    if (prefix == 2 && w % 2 == 0) || (prefix == 3 && w % 2 == 1) {
    } else {
        lemma_small_mod((m - w) as nat, m);
        assert(decompress_y(prefix, x) == (m - w) as nat);
        lemma_sub_mod_noop(m as int, w as int, 2);
        assert((m - w) % 2 == (1 - (w % 2)) % 2);
    }
}

/// Multiplying by 0 gives the point at infinity and multiplying by 1
/// gives the point back, both always defined.
pub proof fn lemma_pt_mul_zero_one(p: PointV)
    ensures
        pt_mul(p, 0) == PointV::Infinity,
        pt_mul_ok(p, 0),
        pt_mul(p, 1) == p,
        pt_mul_ok(p, 1),
{
    assert(pt_mul(p, 0) == PointV::Infinity);
    assert(pt_double(PointV::Infinity) == PointV::Infinity);
    assert(pt_mul(p, 1) == pt_add(PointV::Infinity, p));
}

/// Point addition is commutative wherever it is defined.
pub proof fn lemma_pt_add_comm(a: PointV, b: PointV)
    requires
        pt_add_ok(a, b),
    ensures
        pt_add_ok(b, a),
        pt_add(a, b) == pt_add(b, a),
{
    let m = p_val() as int;
    lemma2_to64();
    assert(m >= 2);
    match (a, b) {
        (PointV::Infinity, _) => {},
        (_, PointV::Infinity) => {},
        (PointV::Affine { x: x1, y: y1 }, PointV::Affine { x: x2, y: y2 }) => {
            if x1 == x2 && y1 == y2 {
            } else if x1 == x2 {
            } else {
                let d1 = (x1 - x2) % m;
                let d2 = (x2 - x1) % m;
                let i = inv_mod(d1, m);
                assert(is_inv_mod(d1, i, m));
                lemma_mod_bound(x1 - x2, m);
                lemma_mod_bound(x2 - x1, m);
                // (m - i) reduced is the inverse of d2
                let j = (m - i) % m;
                lemma_mod_bound(m - i, m);
                assert((d2 * j) % m == 1) by {
                    lemma_mul_mod_noop_left(x2 - x1, j, m);
                    lemma_mul_mod_noop_right(x2 - x1, m - i, m);
                    assert((x2 - x1) * (m - i) == m * (x2 - x1) + (x1 - x2) * i)
                        by (nonlinear_arith);
                    lemma_mod_multiples_vanish(x2 - x1, (x1 - x2) * i, m);
                    assert(((x1 - x2) * i) % m == (d1 * i) % m) by {
                        lemma_mul_mod_noop_left(x1 - x2, i, m);
                    }
                }
                lemma_inv_mod_is(d2, j, m);
                assert(has_inv_mod(d2, m));
                // the slopes agree
                let la = ((y1 - y2) * i) % m;
                let lb = ((y2 - y1) * j) % m;
                assert(la == lb) by {
                    lemma_mul_mod_noop_right(y2 - y1, m - i, m);
                    assert((y2 - y1) * (m - i) == m * (y2 - y1) + (y1 - y2) * i)
                        by (nonlinear_arith);
                    lemma_mod_multiples_vanish(y2 - y1, (y1 - y2) * i, m);
                }
                // with equal slopes the x results agree
                assert((la * la - x1 - x2) % m == (lb * lb - x2 - x1) % m);
                let xr = (la * la - x1 - x2) % m;
                // l·(x1 − x2) ≡ y1 − y2, so the y results agree
                let ya = (la * (x1 - xr) - y1) % m;
                let yb = (lb * (x2 - xr) - y2) % m;
                assert(ya == yb) by {
                    assert((la * (x1 - x2)) % m == (y1 - y2) % m) by {
                        lemma_mul_mod_noop_left((y1 - y2) * i, x1 - x2, m);
                        assert(((y1 - y2) * i) * (x1 - x2) == (y1 - y2) * (i * (x1 - x2))) by {
                            lemma_mul_is_associative(y1 - y2, i, x1 - x2);
                        }
                        assert((i * (x1 - x2)) % m == 1) by {
                            lemma_mul_mod_noop_right(i, x1 - x2, m);
                            lemma_mul_mod_noop_right(i, d1, m);
                            lemma_mul_is_commutative(i, d1);
                            assert((i * d1) % m == (d1 * i) % m);
                        }
                        assert(((y1 - y2) * (i * (x1 - x2))) % m == ((y1 - y2) * 1) % m) by {
                            lemma_mul_mod_noop_right(y1 - y2, i * (x1 - x2), m);
                        }
                        lemma_small_mod(1, m as nat);
                    }
                    let diff = (la * (x1 - xr) - y1) - (lb * (x2 - xr) - y2);
                    assert(diff == la * (x1 - x2) - (y1 - y2)) by (nonlinear_arith)
                        requires
                            la == lb,
                            diff == (la * (x1 - xr) - y1) - (lb * (x2 - xr) - y2),
                    ;
                    assert(diff % m == 0) by {
                        lemma_sub_mod_noop(la * (x1 - x2), y1 - y2, m);
                        lemma_small_mod(0nat, m as nat);
                    }
                    lemma_fundamental_div_mod(diff, m);
                    assert(la * (x1 - xr) - y1 == m * (diff / m) + (lb * (x2 - xr) - y2));
                    lemma_mod_multiples_vanish(diff / m, lb * (x2 - xr) - y2, m);
                }
            }
        },
    }
}

} // verus!

