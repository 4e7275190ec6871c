//! The adaptor-signature protocol: pre-sign, pre-verify, adapt and
//! extract, together with plain ECDSA signing and verification.
//!
//! Scalars (private keys, nonces, adaptor secrets and signature
//! components) are big-endian byte strings; every contract speaks of the
//! numbers they denote, mod the curve order q.  The party pre-signing
//! holds the private scalar x; the verifier checks against that party's
//! public key point X = x·G.

use vstd::prelude::*;
use vstd::arithmetic::div_mod::{
    lemma_small_mod, lemma_sub_mod_noop, lemma_mul_mod_noop_left, lemma_mul_mod_noop_right,
    lemma_add_mod_noop_right, lemma_mod_multiples_vanish, lemma_mod_bound,
};
use vstd::arithmetic::mul::{lemma_mul_is_associative, lemma_mul_is_commutative};
use vstd::arithmetic::power2::lemma2_to64;
use rand::Rng;
use crate::bignum::{
    be_to_nat, be_minimal, be_lt, be_eq, be_is_zero, big_add, big_sub, big_rem, big_modinv,
    mod_add_be, mod_mul_be, is_inv_mod, has_inv_mod, inv_mod, lemma_inv_mod_is,
};
use crate::curve::{
    Point, PointV, gen_v, generator, curve_order, multiply, eq_point, q_val, pt_mul, pt_mul_ok,
    pt_add, pt_add_ok,
};
use crate::errors::SwapError;
use crate::hashing::{sha256_of, sha256_digest};

verus! {

/// An ECDSA signature: the pair (r, s), both values mod q.
#[derive(Clone, Debug, PartialEq, Eq)]
pub struct Signature {
    pub r: Vec<u8>,
    pub s: Vec<u8>,
}

/// The x coordinate of a model point, 0 at infinity.
pub open spec fn px(p: PointV) -> int {
    match p {
        PointV::Infinity => 0,
        PointV::Affine { x, .. } => x,
    }
}

/// The message digest as a scalar: SHA-256 of the message, mod q.
pub open spec fn msg_z(m: Seq<u8>) -> nat {
    be_to_nat(sha256_of(m)) % q_val()
}

/// Every curve operation of pre-signing is defined: the public key and
/// the two nonce points exist, and the nonce is invertible mod q.
pub open spec fn presign_defined(t: PointV, k: nat, x: nat) -> bool {
    &&& pt_mul_ok(gen_v(), x)
    &&& pt_mul_ok(gen_v(), k)
    &&& pt_mul_ok(t, k)
    &&& has_inv_mod(k as int, q_val() as int)
}

/// The r component: the x coordinate of R = k·T, mod q.
pub open spec fn presign_r(t: PointV, k: nat) -> nat {
    (px(pt_mul(t, k)) % (q_val() as int)) as nat
}

/// The partial signature s' = k⁻¹ · (z + r·x) mod q.
pub open spec fn presign_s(t: PointV, k: nat, x: nat, z: nat) -> nat {
    ((inv_mod(k as int, q_val() as int) * (z + presign_r(t, k) * x)) % (q_val() as int)) as nat
}

/// Pre-signs a message against the statement point T: returns
/// (r, s', pubkey, R, R') with R = k·T, R' = k·G, r = R.x mod q and
/// s' = k⁻¹(z + r·x) mod q.  A missing curve operation or inverse is an
/// ArithmeticError; r = 0 or s' = 0 is a DegenerateSignatureError, on
/// which the caller resamples the nonce.
pub fn pre_sign(
    message: &Vec<u8>,
    nonce: &Vec<u8>,
    statement_t: &Point,
    prv_key: &Vec<u8>,
) -> (out: Result<(Vec<u8>, Vec<u8>, Point, Point, Point), SwapError>)
    requires
        statement_t.wf(),
    ensures
        out matches Ok(o) ==> ({
            let t = statement_t@;
            let k = be_to_nat(nonce@);
            let x = be_to_nat(prv_key@);
            &&& presign_defined(t, k, x)
            &&& presign_r(t, k) != 0
            &&& presign_s(t, k, x, msg_z(message@)) != 0
            &&& be_to_nat(o.0@) == presign_r(t, k)
            &&& be_minimal(o.0@)
            &&& be_to_nat(o.1@) == presign_s(t, k, x, msg_z(message@))
            &&& be_minimal(o.1@)
            &&& o.2@ == pt_mul(gen_v(), x)
            &&& o.2.wf()
            &&& o.3@ == pt_mul(t, k)
            &&& o.3.wf()
            &&& o.4@ == pt_mul(gen_v(), k)
            &&& o.4.wf()
        }),
        out matches Err(e) ==> ({
            let t = statement_t@;
            let k = be_to_nat(nonce@);
            let x = be_to_nat(prv_key@);
            ||| (e == SwapError::ArithmeticError && !presign_defined(t, k, x))
            ||| (e == SwapError::DegenerateSignatureError && presign_defined(t, k, x) && (
            presign_r(t, k) == 0 || presign_s(t, k, x, msg_z(message@)) == 0))
        }),
{
    let g = generator();
    let ghost t = statement_t@;
    let ghost k = be_to_nat(nonce@);
    let ghost x = be_to_nat(prv_key@);
    let q = curve_order();
    proof {
        lemma2_to64();
        assert(q_val() >= 2);
    }
    let pub_point = match multiply(&g, prv_key) {
        Ok(p) => p,
        Err(e) => {
            return Err(e);
        },
    };
    let r_line_kg = match multiply(&g, nonce) {
        Ok(p) => p,
        Err(e) => {
            return Err(e);
        },
    };
    let r_kt = match multiply(statement_t, nonce) {
        Ok(p) => p,
        Err(e) => {
            return Err(e);
        },
    };
    let ik = match big_modinv(nonce, &q) {
        Some(v) => v,
        None => {
            proof {
                assert forall|i: int| !(#[trigger] is_inv_mod(k as int, i, q_val() as int)) by {
                    if 0 <= i < q_val() {
                        assert((be_to_nat(nonce@) * (i as nat)) % be_to_nat(q@) != 1);
                    }
                }
            }
            return Err(SwapError::ArithmeticError);
        },
    };
    proof {
        lemma_inv_mod_is(k as int, be_to_nat(ik@) as int, q_val() as int);
    }
    let rv = match &r_kt {
        Point::Infinity => {
            let e: Vec<u8> = Vec::new();
            let rr = big_rem(&e, &q);
            proof {
                lemma_small_mod(0nat, q_val());
            }
            rr
        },
        Point::Affine { x: rx, .. } => big_rem(rx, &q),
    };
    let h = sha256_digest(message);
    let zv = big_rem(&h, &q);
    let rx_x = mod_mul_be(&rv, prv_key, &q);
    let sum = mod_add_be(&zv, &rx_x, &q);
    let sv = mod_mul_be(&ik, &sum, &q);
    proof {
        let qi = q_val() as int;
        let z = msg_z(message@);
        let rr = presign_r(t, k);
        assert(be_to_nat(rv@) == rr);
        assert(be_to_nat(sum@) == (z + rr * x) % q_val()) by {
            lemma_add_mod_noop_right(z as int, (rr * x) as int, qi);
            lemma_small_mod(z, q_val());
        }
        assert(be_to_nat(sv@) == presign_s(t, k, x, z)) by {
            lemma_mul_mod_noop_right(be_to_nat(ik@) as int, (z + rr * x) as int, qi);
        }
    }
    let r_zero = be_is_zero(&rv);
    let s_zero = be_is_zero(&sv);
    if r_zero || s_zero {
        return Err(SwapError::DegenerateSignatureError);
    }
    Ok((rv, sv, pub_point, r_kt, r_line_kg))
}

/// u = z·s'⁻¹ mod q.
pub open spec fn preverify_u(sl: nat, z: nat) -> nat {
    ((z * inv_mod(sl as int, q_val() as int)) % (q_val() as int)) as nat
}

/// v = r·s'⁻¹ mod q.
pub open spec fn preverify_v(sl: nat, rr: nat) -> nat {
    ((rr * inv_mod(sl as int, q_val() as int)) % (q_val() as int)) as nat
}

/// The verification point u·G + v·X.
pub open spec fn preverify_point(x_point: PointV, sl: nat, rr: nat, z: nat) -> PointV {
    pt_add(pt_mul(gen_v(), preverify_u(sl, z)), pt_mul(x_point, preverify_v(sl, rr)))
}

/// Every curve operation of pre-verification is defined.
pub open spec fn preverify_defined(x_point: PointV, sl: nat, rr: nat, z: nat) -> bool {
    &&& has_inv_mod(sl as int, q_val() as int)
    &&& pt_mul_ok(gen_v(), preverify_u(sl, z))
    &&& pt_mul_ok(x_point, preverify_v(sl, rr))
    &&& pt_add_ok(pt_mul(gen_v(), preverify_u(sl, z)), pt_mul(x_point, preverify_v(sl, rr)))
}

/// Pre-verifies a partial signature (r, s') for a message against the
/// pre-signer's public key point: accepts exactly when
/// R' = u·G + v·X for u = z·s'⁻¹ and v = r·s'⁻¹ mod q.
pub fn pre_verify(
    message: &Vec<u8>,
    s_line: &Vec<u8>,
    r: &Vec<u8>,
    r_line_kg: &Point,
    pub_key: &Point,
) -> (out: Result<bool, SwapError>)
    requires
        pub_key.wf(),
    ensures
        out matches Ok(b) ==> preverify_defined(
            pub_key@,
            be_to_nat(s_line@),
            be_to_nat(r@),
            msg_z(message@),
        ) && b == (r_line_kg@ == preverify_point(
            pub_key@,
            be_to_nat(s_line@),
            be_to_nat(r@),
            msg_z(message@),
        )),
        out matches Err(e) ==> !preverify_defined(
            pub_key@,
            be_to_nat(s_line@),
            be_to_nat(r@),
            msg_z(message@),
        ) && e == SwapError::ArithmeticError,
{
    let g = generator();
    let q = curve_order();
    let ghost sl = be_to_nat(s_line@);
    let ghost rr = be_to_nat(r@);
    let ghost z = msg_z(message@);
    proof {
        lemma2_to64();
        assert(q_val() >= 2);
    }
    let iv = match big_modinv(s_line, &q) {
        Some(v) => v,
        None => {
            proof {
                assert forall|i: int| !(#[trigger] is_inv_mod(sl as int, i, q_val() as int)) by {
                    if 0 <= i < q_val() {
                        assert((be_to_nat(s_line@) * (i as nat)) % be_to_nat(q@) != 1);
                    }
                }
            }
            return Err(SwapError::ArithmeticError);
        },
    };
    proof {
        lemma_inv_mod_is(sl as int, be_to_nat(iv@) as int, q_val() as int);
    }
    let h = sha256_digest(message);
    let zv = big_rem(&h, &q);
    let u = mod_mul_be(&zv, &iv, &q);
    let v = mod_mul_be(r, &iv, &q);
    proof {
        assert(be_to_nat(u@) == preverify_u(sl, z));
        assert(be_to_nat(v@) == preverify_v(sl, rr));
    }
    let ug = match multiply(&g, &u) {
        Ok(p) => p,
        Err(e) => {
            return Err(e);
        },
    };
    let vx = match multiply(pub_key, &v) {
        Ok(p) => p,
        Err(e) => {
            return Err(e);
        },
    };
    let sum = match crate::curve::add(&ug, &vx) {
        Ok(p) => p,
        Err(e) => {
            return Err(e);
        },
    };
    Ok(eq_point(r_line_kg, &sum))
}

/// Plain ECDSA signing is defined when k·G exists and k is invertible
/// mod q.
pub open spec fn sign_defined(k: nat, x: nat) -> bool {
    &&& pt_mul_ok(gen_v(), k)
    &&& has_inv_mod(k as int, q_val() as int)
}

/// Signs a message with plain ECDSA: r = (k·G).x mod q and
/// s = k⁻¹(z + r·x) mod q, rejecting a degenerate r = 0 or s = 0.
pub fn sign(private_key: &Vec<u8>, message: &Vec<u8>, nonce: &Vec<u8>) -> (out: Result<
    Signature,
    SwapError,
>)
    ensures
        out matches Ok(sig) ==> ({
            let k = be_to_nat(nonce@);
            let x = be_to_nat(private_key@);
            &&& sign_defined(k, x)
            &&& presign_r(gen_v(), k) != 0
            &&& presign_s(gen_v(), k, x, msg_z(message@)) != 0
            &&& be_to_nat(sig.r@) == presign_r(gen_v(), k)
            &&& be_minimal(sig.r@)
            &&& be_to_nat(sig.s@) == presign_s(gen_v(), k, x, msg_z(message@))
            &&& be_minimal(sig.s@)
        }),
        out matches Err(e) ==> ({
            let k = be_to_nat(nonce@);
            let x = be_to_nat(private_key@);
            ||| (e == SwapError::ArithmeticError && !sign_defined(k, x))
            ||| (e == SwapError::DegenerateSignatureError && sign_defined(k, x) && (presign_r(
                gen_v(),
                k,
            ) == 0 || presign_s(gen_v(), k, x, msg_z(message@)) == 0))
        }),
{
    let g = generator();
    let ghost k = be_to_nat(nonce@);
    let ghost x = be_to_nat(private_key@);
    let q = curve_order();
    proof {
        lemma2_to64();
        assert(q_val() >= 2);
    }
    let r_point = match multiply(&g, nonce) {
        Ok(p) => p,
        Err(e) => {
            return Err(e);
        },
    };
    let ik = match big_modinv(nonce, &q) {
        Some(v) => v,
        None => {
            proof {
                assert forall|i: int| !(#[trigger] is_inv_mod(k as int, i, q_val() as int)) by {
                    if 0 <= i < q_val() {
                        assert((be_to_nat(nonce@) * (i as nat)) % be_to_nat(q@) != 1);
                    }
                }
            }
            return Err(SwapError::ArithmeticError);
        },
    };
    proof {
        lemma_inv_mod_is(k as int, be_to_nat(ik@) as int, q_val() as int);
    }
    let rv = match &r_point {
        Point::Infinity => {
            let e: Vec<u8> = Vec::new();
            let rr = big_rem(&e, &q);
            proof {
                lemma_small_mod(0nat, q_val());
            }
            rr
        },
        Point::Affine { x: rx, .. } => big_rem(rx, &q),
    };
    let h = sha256_digest(message);
    let zv = big_rem(&h, &q);
    let rx_x = mod_mul_be(&rv, private_key, &q);
    let sum = mod_add_be(&zv, &rx_x, &q);
    let sv = mod_mul_be(&ik, &sum, &q);
    proof {
        let qi = q_val() as int;
        let z = msg_z(message@);
        let rr = presign_r(gen_v(), k);
        assert(be_to_nat(rv@) == rr);
        assert(be_to_nat(sum@) == (z + rr * x) % q_val()) by {
            lemma_add_mod_noop_right(z as int, (rr * x) as int, qi);
            lemma_small_mod(z, q_val());
        }
        assert(be_to_nat(sv@) == presign_s(gen_v(), k, x, z)) by {
            lemma_mul_mod_noop_right(be_to_nat(ik@) as int, (z + rr * x) as int, qi);
        }
    }
    let r_zero = be_is_zero(&rv);
    let s_zero = be_is_zero(&sv);
    if r_zero || s_zero {
        return Err(SwapError::DegenerateSignatureError);
    }
    Ok(Signature { r: rv, s: sv })
}

/// The r and s of a signature lie in [1, q).
pub open spec fn ecdsa_range_ok(rr: nat, ss: nat) -> bool {
    1 <= rr < q_val() && 1 <= ss < q_val()
}

/// Every curve operation of ECDSA verification is defined.
pub open spec fn verify_defined(x_point: PointV, z: nat, rr: nat, ss: nat) -> bool {
    &&& has_inv_mod(ss as int, q_val() as int)
    &&& pt_mul_ok(gen_v(), preverify_u(ss, z))
    &&& pt_mul_ok(x_point, preverify_v(ss, rr))
    &&& pt_add_ok(pt_mul(gen_v(), preverify_u(ss, z)), pt_mul(x_point, preverify_v(ss, rr)))
}

/// Standard ECDSA acceptance: the point u1·G + u2·X is affine and its
/// x coordinate mod q equals r.
pub open spec fn ecdsa_accept(x_point: PointV, z: nat, rr: nat, ss: nat) -> bool {
    let pt = preverify_point(x_point, ss, rr, z);
    &&& !(pt is Infinity)
    &&& px(pt) % (q_val() as int) == rr
}

/// Verifies a signature with standard ECDSA against a public key point:
/// components out of [1, q) are rejected outright; otherwise acceptance
/// is exactly the ecdsa_accept condition.
pub fn verify(message: &Vec<u8>, signature: &Signature, pub_key: &Point) -> (out: Result<
    bool,
    SwapError,
>)
    requires
        pub_key.wf(),
    ensures
        out matches Ok(b) ==> ({
            let z = msg_z(message@);
            let rr = be_to_nat(signature.r@);
            let ss = be_to_nat(signature.s@);
            &&& (!ecdsa_range_ok(rr, ss) ==> b == false)
            &&& (ecdsa_range_ok(rr, ss) ==> verify_defined(pub_key@, z, rr, ss) && b
                == ecdsa_accept(pub_key@, z, rr, ss))
        }),
        out matches Err(e) ==> ({
            let z = msg_z(message@);
            let rr = be_to_nat(signature.r@);
            let ss = be_to_nat(signature.s@);
            &&& ecdsa_range_ok(rr, ss)
            &&& !verify_defined(pub_key@, z, rr, ss)
            &&& e == SwapError::ArithmeticError
        }),
{
    let g = generator();
    let q = curve_order();
    let ghost z = msg_z(message@);
    let ghost rr = be_to_nat(signature.r@);
    let ghost ss = be_to_nat(signature.s@);
    proof {
        lemma2_to64();
        assert(q_val() >= 2);
    }
    let r_zero = be_is_zero(&signature.r);
    let s_zero = be_is_zero(&signature.s);
    let r_high = !be_lt(&signature.r, &q);
    let s_high = !be_lt(&signature.s, &q);
    if r_zero || s_zero || r_high || s_high {
        return Ok(false);
    }
    let iv = match big_modinv(&signature.s, &q) {
        Some(v) => v,
        None => {
            proof {
                assert forall|i: int| !(#[trigger] is_inv_mod(ss as int, i, q_val() as int)) by {
                    if 0 <= i < q_val() {
                        assert((be_to_nat(signature.s@) * (i as nat)) % be_to_nat(q@) != 1);
                    }
                }
            }
            return Err(SwapError::ArithmeticError);
        },
    };
    proof {
        lemma_inv_mod_is(ss as int, be_to_nat(iv@) as int, q_val() as int);
    }
    let h = sha256_digest(message);
    let zv = big_rem(&h, &q);
    let u = mod_mul_be(&zv, &iv, &q);
    let v = mod_mul_be(&signature.r, &iv, &q);
    proof {
        assert(be_to_nat(u@) == preverify_u(ss, z));
        assert(be_to_nat(v@) == preverify_v(ss, rr));
    }
    let ug = match multiply(&g, &u) {
        Ok(p) => p,
        Err(e) => {
            return Err(e);
        },
    };
    let vx = match multiply(pub_key, &v) {
        Ok(p) => p,
        Err(e) => {
            return Err(e);
        },
    };
    let sum = match crate::curve::add(&ug, &vx) {
        Ok(p) => p,
        Err(e) => {
            return Err(e);
        },
    };
    match &sum {
        Point::Infinity => Ok(false),
        Point::Affine { x: sx, .. } => {
            let sxq = big_rem(sx, &q);
            Ok(be_eq(&sxq, &signature.r))
        },
    }
}

/// The adapted value before low-s normalization: s'·t⁻¹ mod q.
pub open spec fn adapt_raw(sl: nat, t: nat) -> nat {
    ((sl * inv_mod(t as int, q_val() as int)) % (q_val() as int)) as nat
}

/// The adapted signature component: s'·t⁻¹ mod q, normalized to the low
/// half of the scalar field.
pub open spec fn adapt_spec(sl: nat, t: nat) -> nat {
    let s0 = adapt_raw(sl, t);
    if s0 > q_val() / 2 {
        (q_val() - s0) as nat
    } else {
        s0
    }
}

/// Adapts a partial signature with the adaptor secret t:
/// s = s'·t⁻¹ mod q, then low-s normalized; the error is ArithmeticError
/// exactly when t has no inverse mod q.
pub fn adapt(s_line: &Vec<u8>, secret_t: &Vec<u8>) -> (out: Result<Vec<u8>, SwapError>)
    ensures
        out matches Ok(v) ==> has_inv_mod(be_to_nat(secret_t@) as int, q_val() as int)
            && be_to_nat(v@) == adapt_spec(be_to_nat(s_line@), be_to_nat(secret_t@)),
        out matches Err(e) ==> !has_inv_mod(be_to_nat(secret_t@) as int, q_val() as int) && e
            == SwapError::ArithmeticError,
{
    let q = curve_order();
    let ghost sl = be_to_nat(s_line@);
    let ghost t = be_to_nat(secret_t@);
    proof {
        lemma2_to64();
        assert(q_val() >= 2);
        assert(q_val() % 2 == 1);
    }
    let iv = match big_modinv(secret_t, &q) {
        Some(v) => v,
        None => {
            proof {
                assert forall|i: int| !(#[trigger] is_inv_mod(t as int, i, q_val() as int)) by {
                    if 0 <= i < q_val() {
                        assert((be_to_nat(secret_t@) * (i as nat)) % be_to_nat(q@) != 1);
                    }
                }
            }
            return Err(SwapError::ArithmeticError);
        },
    };
    proof {
        lemma_inv_mod_is(t as int, be_to_nat(iv@) as int, q_val() as int);
    }
    let s0 = mod_mul_be(s_line, &iv, &q);
    let doubled = big_add(&s0, &s0);
    if be_lt(&q, &doubled) {
        proof {
            assert(q_val() == 2 * (q_val() / 2) + 1);
        }
        Ok(big_sub(&q, &s0))
    } else {
        proof {
            assert(q_val() == 2 * (q_val() / 2) + 1);
        }
        Ok(s0)
    }
}

/// Extracts the adaptor secret from the partial and the adapted
/// signature: t = s'·s⁻¹ mod q; the error is ArithmeticError exactly
/// when s has no inverse mod q.
pub fn extract(s_line: &Vec<u8>, s: &Vec<u8>) -> (out: Result<Vec<u8>, SwapError>)
    ensures
        out matches Ok(v) ==> has_inv_mod(be_to_nat(s@) as int, q_val() as int) && be_to_nat(v@)
            == extract_spec(be_to_nat(s_line@), be_to_nat(s@)),
        out matches Err(e) ==> !has_inv_mod(be_to_nat(s@) as int, q_val() as int) && e
            == SwapError::ArithmeticError,
{
    let q = curve_order();
    let ghost sl = be_to_nat(s_line@);
    let ghost sv = be_to_nat(s@);
    proof {
        lemma2_to64();
        assert(q_val() >= 2);
    }
    let iv = match big_modinv(s, &q) {
        Some(v) => v,
        None => {
            proof {
                assert forall|i: int| !(#[trigger] is_inv_mod(sv as int, i, q_val() as int)) by {
                    if 0 <= i < q_val() {
                        assert((be_to_nat(s@) * (i as nat)) % be_to_nat(q@) != 1);
                    }
                }
            }
            return Err(SwapError::ArithmeticError);
        },
    };
    proof {
        lemma_inv_mod_is(sv as int, be_to_nat(iv@) as int, q_val() as int);
    }
    Ok(mod_mul_be(s_line, &iv, &q))
}

/// What extract computes: s'·s⁻¹ mod q.
pub open spec fn extract_spec(sl: nat, s: nat) -> nat {
    ((sl * inv_mod(s as int, q_val() as int)) % (q_val() as int)) as nat
}

/// Adapt/extract round trip: for an invertible partial signature s' and
/// adaptor secret t, extracting from the adapted signature recovers the
/// secret mod q when no low-s normalization happened, and its negative
/// mod q when it did.
pub proof fn lemma_adapt_extract_round_trip(sl: nat, t: nat)
    requires
        has_inv_mod(sl as int, q_val() as int),
        has_inv_mod(t as int, q_val() as int),
    ensures
        adapt_raw(sl, t) <= q_val() / 2 ==> extract_spec(sl, adapt_spec(sl, t)) == t % q_val(),
        adapt_raw(sl, t) > q_val() / 2 ==> extract_spec(sl, adapt_spec(sl, t)) == q_val() - (t
            % q_val()),
{
    lemma2_to64();
    let q = q_val() as int;
    assert(q >= 2);
    let ti = t as int;
    let sli = sl as int;
    let it = inv_mod(ti, q);
    let isl = inv_mod(sli, q);
    assert(is_inv_mod(ti, it, q));
    assert(is_inv_mod(sli, isl, q));
    let s0 = (sli * it) % q;
    lemma_mod_bound(sli * it, q);
    let j = (isl * ti) % q;
    lemma_mod_bound(isl * ti, q);
    // t is nonzero mod q
    assert(ti % q != 0) by {
        if ti % q == 0 {
            lemma_mul_mod_noop_left(ti, it, q);
            assert((ti * it) % q == ((ti % q) * it) % q);
            lemma_small_mod(0nat, q_val());
            assert(((0int) * it) % q == 0);
        }
    }
    // j inverts s0
    assert((s0 * j) % q == 1) by {
        lemma_mul_mod_noop_left(sli * it, j, q);
        lemma_mul_mod_noop_right(sli * it, isl * ti, q);
        assert((sli * it) * (isl * ti) == (sli * isl) * (it * ti)) by (nonlinear_arith);
        lemma_mul_mod_noop_left(sli * isl, it * ti, q);
        lemma_mul_is_commutative(sli, isl);
        assert((sli * isl) % q == 1);
        lemma_mul_is_commutative(it, ti);
        assert((it * ti) % q == 1);
        lemma_small_mod(1nat, q_val());
    }
    assert(is_inv_mod(s0, j, q));
    // extracting against s0 yields t mod q
    assert((sli * j) % q == ti % q) by {
        lemma_mul_mod_noop_right(sli, isl * ti, q);
        lemma_mul_is_associative(sli, isl, ti);
        lemma_mul_mod_noop_left(sli * isl, ti, q);
        assert((sli * isl) % q == 1) by {
            lemma_mul_is_commutative(sli, isl);
        }
        lemma_small_mod(1nat, q_val());
    }
    if s0 <= q / 2 {
        assert(adapt_spec(sl, t) == s0);
        lemma_inv_mod_is(s0, j, q);
        assert(extract_spec(sl, adapt_spec(sl, t)) == ((sli * j) % q) as nat);
    } else {
        assert(adapt_spec(sl, t) == (q - s0) as nat);
        let jb = (q - j) % q;
        lemma_mod_bound(q - j, q);
        assert(((q - s0) * jb) % q == 1) by {
            lemma_mul_mod_noop_right(q - s0, q - j, q);
            assert((q - s0) * (q - j) == q * (q - s0 - j) + s0 * j) by (nonlinear_arith);
            lemma_mod_multiples_vanish(q - s0 - j, s0 * j, q);
        }
        assert(is_inv_mod(q - s0, jb, q));
        lemma_inv_mod_is(q - s0, jb, q);
        assert((sli * jb) % q == q - ti % q) by {
            lemma_mul_mod_noop_right(sli, q - j, q);
            assert(sli * (q - j) == q * sli + (0 - sli * j)) by (nonlinear_arith);
            lemma_mod_multiples_vanish(sli, 0 - sli * j, q);
            lemma_sub_mod_noop(0, sli * j, q);
            lemma_small_mod(0nat, q_val());
            assert((0 - sli * j) % q == (0 - ti % q) % q);
            lemma_mod_multiples_vanish(1, 0 - ti % q, q);
            assert(q * 1 + (0 - ti % q) == q - ti % q);
            lemma_small_mod((q - ti % q) as nat, q_val());
        }
        assert(extract_spec(sl, adapt_spec(sl, t)) == ((sli * jb) % q) as nat);
    }
}

/// Relies on rand::rng and Rng::fill_bytes: 32 bytes from the
/// thread-local CSPRNG; nothing is assumed about their values.
#[verifier::external_body]
fn random_bytes_32() -> (r: Vec<u8>)
    ensures
        r@.len() == 32,
{
    let mut buf = [0u8; 32];
    rand::rng().fill_bytes(&mut buf);
    buf.to_vec()
}

/// A nonce drawn from the system CSPRNG, reduced below the curve order.
/// Nothing more is promised of its value: callers treat every outcome.
pub fn random_nonce() -> (r: Vec<u8>)
    ensures
        be_to_nat(r@) < q_val(),
{
    let q = curve_order();
    proof {
        lemma2_to64();
        assert(q_val() >= 2);
    }
    let b = random_bytes_32();
    let red = big_rem(&b, &q);
    proof {
        lemma_mod_bound(be_to_nat(b@) as int, q_val() as int);
    }
    red
}

/// Pre-signs with fresh random nonces, resampling on a degenerate
/// r = 0 or s' = 0 as the protocol requires, up to 64 attempts; the
/// nonce that succeeded is returned with the pre-signature.  Any other
/// error is surfaced at once.
pub fn pre_sign_with_fresh_nonce(
    message: &Vec<u8>,
    statement_t: &Point,
    prv_key: &Vec<u8>,
) -> (out: Result<(Vec<u8>, (Vec<u8>, Vec<u8>, Point, Point, Point)), SwapError>)
    requires
        statement_t.wf(),
    ensures
        out matches Ok(o) ==> ({
            let t = statement_t@;
            let k = be_to_nat(o.0@);
            let x = be_to_nat(prv_key@);
            &&& presign_defined(t, k, x)
            &&& presign_r(t, k) != 0
            &&& presign_s(t, k, x, msg_z(message@)) != 0
            &&& be_to_nat((o.1).0@) == presign_r(t, k)
            &&& be_to_nat((o.1).1@) == presign_s(t, k, x, msg_z(message@))
            &&& (o.1).2@ == pt_mul(gen_v(), x)
            &&& (o.1).3@ == pt_mul(t, k)
            &&& (o.1).4@ == pt_mul(gen_v(), k)
        }),
        out matches Err(e) ==> (e == SwapError::ArithmeticError || e
            == SwapError::DegenerateSignatureError),
{
    let mut attempts: u8 = 0;
    while attempts < 64
        invariant
            attempts <= 64,
            statement_t.wf(),
        decreases 64 - attempts,
    {
        let nonce = random_nonce();
        match pre_sign(message, &nonce, statement_t, prv_key) {
            Ok(o) => {
                return Ok((nonce, o));
            },
            Err(e) => {
                if !matches!(e, SwapError::DegenerateSignatureError) {
                    return Err(e);
                }
            },
        }
        attempts = attempts + 1;
    }
    Err(SwapError::DegenerateSignatureError)
}

} // verus!
