//! Unsigned big integers as big-endian byte strings.
//!
//! Points, scalars and signature components are carried as `Vec<u8>` in
//! big-endian order; `be_to_nat` gives the number such a byte string
//! denotes, and every contract in the crate speaks of that value.  The
//! modular arithmetic itself is delegated to `num_bigint` behind trusted
//! wrappers whose contracts state the returned value exactly.

use vstd::prelude::*;
use vstd::arithmetic::power::{pow, lemma_pow_positive, lemma_pow_increases};
use vstd::arithmetic::power2::{pow2, lemma_pow2_adds, lemma_pow2_pos, lemma2_to64};
use vstd::arithmetic::div_mod::{
    lemma_mod_multiples_vanish, lemma_mod_bound, lemma_small_mod, lemma_div_denominator,
    lemma_mul_mod_noop_left, lemma_mul_mod_noop_right,
};
use vstd::arithmetic::mul::{lemma_mul_is_associative, lemma_mul_is_commutative};
use vstd::bits::lemma_u64_shr_is_div;

verus! {

/// The natural number denoted by a big-endian byte string.
pub open spec fn be_to_nat(s: Seq<u8>) -> nat
    decreases s.len(),
{
    if s.len() == 0 {
        0
    } else {
        (256 * be_to_nat(s.drop_last()) + s.last()) as nat
    }
}

/// A byte string is minimal when it is nonempty and carries no redundant
/// leading zero; the canonical form the big-integer wrappers return
/// (zero itself is the single byte 0x00).
pub open spec fn be_minimal(s: Seq<u8>) -> bool {
    s.len() >= 1 && (s.len() > 1 ==> s[0] != 0)
}

/// A byte string denotes less than 256 to the power of its length.
pub proof fn lemma_be_to_nat_bound(s: Seq<u8>)
    ensures
        be_to_nat(s) < pow(256, s.len()),
    decreases s.len(),
{
    if s.len() == 0 {
        vstd::arithmetic::power::lemma_pow0(256);
    } else {
        lemma_be_to_nat_bound(s.drop_last());
        let b = be_to_nat(s.drop_last());
        let p1 = pow(256, (s.len() - 1) as nat);
        vstd::arithmetic::power::lemma_pow1(256);
        vstd::arithmetic::power::lemma_pow_adds(256, 1, (s.len() - 1) as nat);
        assert(pow(256, s.len()) == 256 * p1);
        assert(256 * b + 255 < 256 * p1) by (nonlinear_arith)
            requires
                b < p1,
        ;
    }
}

/// Splitting off the most significant byte.
pub proof fn lemma_be_to_nat_msb(s: Seq<u8>)
    requires
        s.len() > 0,
    ensures
        be_to_nat(s) == s[0] * pow(256, (s.len() - 1) as nat) + be_to_nat(
            s.subrange(1, s.len() as int),
        ),
    decreases s.len(),
{
    if s.len() == 1 {
        assert(s.drop_last() =~= Seq::<u8>::empty());
        assert(s.subrange(1, 1) =~= Seq::<u8>::empty());
        vstd::arithmetic::power::lemma_pow0(256);
    } else {
        let t = s.drop_last();
        lemma_be_to_nat_msb(t);
        let n = s.len() as int;
        let p2 = pow(256, (s.len() - 2) as nat);
        let tail = s.subrange(1, n);
        assert(t.subrange(1, n - 1) =~= tail.drop_last());
        assert(tail.last() == s.last());
        vstd::arithmetic::power::lemma_pow1(256);
        vstd::arithmetic::power::lemma_pow_adds(256, 1, (s.len() - 2) as nat);
        assert(pow(256, (s.len() - 1) as nat) == 256 * p2);
        assert(be_to_nat(t) == s[0] * p2 + be_to_nat(tail.drop_last()));
        assert(256 * (s[0] * p2 + be_to_nat(tail.drop_last())) == s[0] * (256 * p2) + 256
            * be_to_nat(tail.drop_last())) by (nonlinear_arith);
    }
}

/// A leading zero byte does not change the denoted value.
pub proof fn lemma_be_to_nat_leading_zero(s: Seq<u8>)
    requires
        s.len() > 0,
        s[0] == 0,
    ensures
        be_to_nat(s) == be_to_nat(s.subrange(1, s.len() as int)),
{
    lemma_be_to_nat_msb(s);
}

/// Byte strings of equal length compare numerically as they compare
/// lexicographically: a smaller byte at the first difference means a
/// smaller value.
pub proof fn lemma_be_to_nat_lex(a: Seq<u8>, b: Seq<u8>, k: int)
    requires
        a.len() == b.len(),
        0 <= k < a.len(),
        forall|i: int| 0 <= i < k ==> a[i] == b[i],
        a[k] < b[k],
    ensures
        be_to_nat(a) < be_to_nat(b),
    decreases k,
{
    let n = a.len() as int;
    lemma_be_to_nat_msb(a);
    lemma_be_to_nat_msb(b);
    if k == 0 {
        let p1 = pow(256, (a.len() - 1) as nat);
        lemma_pow_positive(256, (a.len() - 1) as nat);
        lemma_be_to_nat_bound(a.subrange(1, n));
        assert(a[0] * p1 + be_to_nat(a.subrange(1, n)) < b[0] * p1 + be_to_nat(
            b.subrange(1, n),
        )) by (nonlinear_arith)
            requires
                a[0] < b[0],
                p1 > 0,
                be_to_nat(a.subrange(1, n)) < p1,
        ;
    } else {
        lemma_be_to_nat_lex(a.subrange(1, n), b.subrange(1, n), k - 1);
    }
}

/// A minimal byte string for a value below 256^k has at most k bytes.
pub proof fn lemma_be_minimal_len(s: Seq<u8>, k: nat)
    requires
        be_minimal(s),
        k >= 1,
        be_to_nat(s) < pow(256, k),
    ensures
        s.len() <= k,
{
    if s.len() > k {
        lemma_be_to_nat_msb(s);
        lemma_pow_increases(256, k, (s.len() - 1) as nat);
        lemma_pow_positive(256, (s.len() - 1) as nat);
        let p1 = pow(256, (s.len() - 1) as nat);
        assert(s[0] >= 1);
        assert(s[0] * p1 >= p1) by (nonlinear_arith)
            requires
                s[0] >= 1,
                p1 > 0,
        ;
    }
}

/// The parity of the value is the parity of the last byte.
pub proof fn lemma_be_to_nat_parity(s: Seq<u8>)
    requires
        s.len() > 0,
    ensures
        be_to_nat(s) % 2 == s.last() % 2,
{
    let b = be_to_nat(s.drop_last()) as int;
    assert(256 * b == 2 * (128 * b));
    lemma_mod_multiples_vanish(128 * b, s.last() as int, 2);
}

/// Compares two big-endian byte strings as the numbers they denote;
/// leading zeros and length differences do not matter.
pub fn be_lt(a: &Vec<u8>, b: &Vec<u8>) -> (r: bool)
    ensures
        r == (be_to_nat(a@) < be_to_nat(b@)),
{
    let alen = a.len();
    let blen = b.len();
    proof {
        assert(a@.subrange(0, alen as int) =~= a@);
        assert(b@.subrange(0, blen as int) =~= b@);
    }
    let mut i: usize = 0;
    while i < alen && a[i] == 0
        invariant
            alen == a@.len(),
            i <= alen,
            be_to_nat(a@) == be_to_nat(a@.subrange(i as int, alen as int)),
        decreases alen - i,
    {
        proof {
            let s = a@.subrange(i as int, alen as int);
            lemma_be_to_nat_leading_zero(s);
            assert(s.subrange(1, s.len() as int) =~= a@.subrange(i as int + 1, alen as int));
        }
        i = i + 1;
    }
    let mut j: usize = 0;
    while j < blen && b[j] == 0
        invariant
            blen == b@.len(),
            j <= blen,
            be_to_nat(b@) == be_to_nat(b@.subrange(j as int, blen as int)),
        decreases blen - j,
    {
        proof {
            let s = b@.subrange(j as int, blen as int);
            lemma_be_to_nat_leading_zero(s);
            assert(s.subrange(1, s.len() as int) =~= b@.subrange(j as int + 1, blen as int));
        }
        j = j + 1;
    }
    let ghost sa = a@.subrange(i as int, alen as int);
    let ghost sb = b@.subrange(j as int, blen as int);
    let la = alen - i;
    let lb = blen - j;
    if la < lb {
        proof {
            lemma_be_to_nat_bound(sa);
            lemma_be_to_nat_msb(sb);
            lemma_pow_increases(256, la as nat, (lb - 1) as nat);
            lemma_pow_positive(256, (lb - 1) as nat);
            let p1 = pow(256, (lb - 1) as nat);
            assert(sb[0] * p1 >= p1) by (nonlinear_arith)
                requires
                    sb[0] >= 1,
                    p1 > 0,
            ;
        }
        true
    } else if lb < la {
        proof {
            lemma_be_to_nat_bound(sb);
            lemma_be_to_nat_msb(sa);
            lemma_pow_increases(256, lb as nat, (la - 1) as nat);
            lemma_pow_positive(256, (la - 1) as nat);
            let p1 = pow(256, (la - 1) as nat);
            assert(sa[0] * p1 >= p1) by (nonlinear_arith)
                requires
                    sa[0] >= 1,
                    p1 > 0,
            ;
        }
        false
    } else {
        let mut t: usize = 0;
        while t < la
            invariant
                alen == a@.len(),
                blen == b@.len(),
                i + la == alen,
                j + lb == blen,
                la == lb,
                t <= la,
                sa == a@.subrange(i as int, alen as int),
                sb == b@.subrange(j as int, blen as int),
                be_to_nat(a@) == be_to_nat(sa),
                be_to_nat(b@) == be_to_nat(sb),
                forall|u: int| 0 <= u < t ==> sa[u] == sb[u],
            decreases la - t,
        {
            let x = a[i + t];
            let y = b[j + t];
            if x < y {
                proof {
                    lemma_be_to_nat_lex(sa, sb, t as int);
                }
                return true;
            }
            if y < x {
                proof {
                    lemma_be_to_nat_lex(sb, sa, t as int);
                }
                return false;
            }
            t = t + 1;
        }
        proof {
            assert(sa =~= sb);
        }
        false
    }
}

/// Tests whether a byte string denotes zero.
pub fn be_is_zero(a: &Vec<u8>) -> (r: bool)
    ensures
        r == (be_to_nat(a@) == 0),
{
    let e: Vec<u8> = Vec::new();
    !be_lt(&e, a)
}

/// Tests whether two byte strings denote the same number.
pub fn be_eq(a: &Vec<u8>, b: &Vec<u8>) -> (r: bool)
    ensures
        r == (be_to_nat(a@) == be_to_nat(b@)),
{
    !be_lt(a, b) && !be_lt(b, a)
}

/// Relies on num_bigint::BigUint: from_bytes_be / to_bytes_be convert
/// between big-endian bytes and the integer (to_bytes_be is minimal, a
/// single zero byte for zero), and + adds.
#[verifier::external_body]
pub(crate) fn big_add(a: &Vec<u8>, b: &Vec<u8>) -> (r: Vec<u8>)
    ensures
        be_to_nat(r@) == be_to_nat(a@) + be_to_nat(b@),
        be_minimal(r@),
{
    let x = num_bigint::BigUint::from_bytes_be(a.as_slice()) + num_bigint::BigUint::from_bytes_be(
        b.as_slice(),
    );
    x.to_bytes_be()
}

/// Relies on num_bigint::BigUint subtraction, which requires the
/// subtrahend not to exceed the minuend.
#[verifier::external_body]
pub(crate) fn big_sub(a: &Vec<u8>, b: &Vec<u8>) -> (r: Vec<u8>)
    requires
        be_to_nat(b@) <= be_to_nat(a@),
    ensures
        be_to_nat(r@) == be_to_nat(a@) - be_to_nat(b@),
        be_minimal(r@),
{
    let x = num_bigint::BigUint::from_bytes_be(a.as_slice()) - num_bigint::BigUint::from_bytes_be(
        b.as_slice(),
    );
    x.to_bytes_be()
}

/// Relies on num_bigint::BigUint multiplication.
#[verifier::external_body]
pub(crate) fn big_mul(a: &Vec<u8>, b: &Vec<u8>) -> (r: Vec<u8>)
    ensures
        be_to_nat(r@) == be_to_nat(a@) * be_to_nat(b@),
        be_minimal(r@),
{
    let x = num_bigint::BigUint::from_bytes_be(a.as_slice()) * num_bigint::BigUint::from_bytes_be(
        b.as_slice(),
    );
    x.to_bytes_be()
}

/// Relies on num_bigint::BigUint remainder (% by a nonzero value).
#[verifier::external_body]
pub(crate) fn big_rem(a: &Vec<u8>, m: &Vec<u8>) -> (r: Vec<u8>)
    requires
        be_to_nat(m@) >= 1,
    ensures
        be_to_nat(r@) == be_to_nat(a@) % be_to_nat(m@),
        be_minimal(r@),
{
    let x = num_bigint::BigUint::from_bytes_be(a.as_slice()) % num_bigint::BigUint::from_bytes_be(
        m.as_slice(),
    );
    x.to_bytes_be()
}

/// Relies on num_bigint::BigUint::modpow: base^exponent % modulus, with a
/// nonzero modulus.
#[verifier::external_body]
pub(crate) fn big_modpow(b: &Vec<u8>, e: &Vec<u8>, m: &Vec<u8>) -> (r: Vec<u8>)
    requires
        be_to_nat(m@) >= 1,
    ensures
        be_to_nat(r@) == pow(be_to_nat(b@) as int, be_to_nat(e@)) % (be_to_nat(m@) as int),
        be_minimal(r@),
{
    let x = num_bigint::BigUint::from_bytes_be(b.as_slice()).modpow(
        &num_bigint::BigUint::from_bytes_be(e.as_slice()),
        &num_bigint::BigUint::from_bytes_be(m.as_slice()),
    );
    x.to_bytes_be()
}

/// Relies on num_bigint::BigUint::modinv: the inverse in [0, modulus) if
/// one exists, None otherwise; the modulus must be at least 2 (for a
/// modulus of 1 the crate answers with 0, which denotes no inverse in the
/// sense used here).
#[verifier::external_body]
pub(crate) fn big_modinv(a: &Vec<u8>, m: &Vec<u8>) -> (r: Option<Vec<u8>>)
    requires
        be_to_nat(m@) >= 2,
    ensures
        r is None ==> forall|i: nat|
            i < be_to_nat(m@) ==> #[trigger] ((be_to_nat(a@) * i) % be_to_nat(m@)) != 1,
        r matches Some(v) ==> be_to_nat(v@) < be_to_nat(m@) && (be_to_nat(a@) * be_to_nat(v@))
            % be_to_nat(m@) == 1 && be_minimal(v@),
{
    let x = num_bigint::BigUint::from_bytes_be(a.as_slice()).modinv(
        &num_bigint::BigUint::from_bytes_be(m.as_slice()),
    );
    match x {
        Some(v) => Some(v.to_bytes_be()),
        None => None,
    }
}

/// i is the multiplicative inverse of a modulo m.
pub open spec fn is_inv_mod(a: int, i: int, m: int) -> bool {
    0 <= i < m && (a * i) % m == 1
}

/// a has a multiplicative inverse modulo m.
pub open spec fn has_inv_mod(a: int, m: int) -> bool {
    exists|i: int| is_inv_mod(a, i, m)
}

/// The multiplicative inverse of a modulo m, where one exists.
pub open spec fn inv_mod(a: int, m: int) -> int {
    choose|i: int| is_inv_mod(a, i, m)
}

/// A value has at most one inverse modulo m.
pub proof fn lemma_inv_mod_unique(a: int, m: int, i: int, j: int)
    requires
        m >= 1,
        is_inv_mod(a, i, m),
        is_inv_mod(a, j, m),
    ensures
        i == j,
{
    let u = (i * (a * j)) % m;
    lemma_mul_mod_noop_right(i, a * j, m);
    lemma_small_mod(i as nat, m as nat);
    assert(u == i);
    assert(i * (a * j) == (i * a) * j) by {
        lemma_mul_is_associative(i, a, j);
    }
    assert(((i * a) * j) % m == (((i * a) % m) * j) % m) by {
        lemma_mul_mod_noop_left(i * a, j, m);
    }
    assert((i * a) % m == 1) by {
        lemma_mul_is_commutative(i, a);
    }
    assert(u == (1 * j) % m);
    lemma_small_mod(j as nat, m as nat);
    assert(u == j);
}

/// So the chosen inverse is the witness the caller holds.
pub proof fn lemma_inv_mod_is(a: int, i: int, m: int)
    requires
        m >= 1,
        is_inv_mod(a, i, m),
    ensures
        has_inv_mod(a, m),
        inv_mod(a, m) == i,
{
    assert(has_inv_mod(a, m));
    let c = inv_mod(a, m);
    assert(is_inv_mod(a, c, m));
    lemma_inv_mod_unique(a, m, c, i);
}

/// 256^e is 2^(8e).
pub proof fn lemma_pow256_pow2(e: nat)
    ensures
        pow(256, e) == pow2((8 * e) as nat),
{
    lemma2_to64();
    vstd::arithmetic::power::lemma_pow_multiplies(2, 8, e);
    lemma_pow_positive(2, 8);
    lemma_pow_positive(2, (8 * e) as nat);
    assert(pow2(8) == 256);
    assert(pow(2, 8) == pow2(8));
}

/// Appends the 8 big-endian bytes of a 64-bit value, shifting the denoted
/// value up by 64 bits.
pub fn push_u64_be(v: &mut Vec<u8>, x: u64)
    ensures
        final(v)@.len() == old(v)@.len() + 8,
        be_to_nat(final(v)@) == be_to_nat(old(v)@) * pow2(64) + x,
{
    proof {
        lemma2_to64();
        vstd::arithmetic::power2::lemma2_to64_rest();
        assert((x as nat) < pow2(64));
        assert((x as nat) / pow2(64) == 0);
        assert(pow2(0) == 1);
        assert(v@ == old(v)@);
        assert(pow2((8 * 0) as nat) == 1);
        assert((x as nat) / pow2((64 - 8 * 0) as nat) == 0);
    }
    let mut i: usize = 0;
    while i < 8
        invariant
            i <= 8,
            v@.len() == old(v)@.len() + i,
            be_to_nat(v@) == be_to_nat(old(v)@) * pow2((8 * i) as nat) + (x as nat) / pow2(
                (64 - 8 * i) as nat,
            ),
        decreases 8 - i,
    {
        let sh: u64 = 56 - 8 * (i as u64);
        let b: u8 = ((x >> sh) & 0xFF) as u8;
        let ghost prev = v@;
        v.push(b);
        proof {
            lemma2_to64();
            assert(v@.drop_last() =~= prev);
            assert(v@.last() == b);
            lemma_u64_shr_is_div(x, sh);
            assert(((x >> sh) & 0xFF) == (x >> sh) % 256) by (bit_vector);
            let d = (x as nat) / pow2((56 - 8 * i) as nat);
            assert((56 - 8 * i) as nat == sh as nat);
            assert(b == d % 256);
            lemma_pow2_pos((56 - 8 * i) as nat);
            lemma_pow2_adds((56 - 8 * i) as nat, 8);
            assert(pow2(8) == 256);
            lemma_div_denominator(x as int, pow2((56 - 8 * i) as nat) as int, 256);
            assert(d / 256 == (x as nat) / pow2((64 - 8 * i) as nat));
            assert(d == 256 * (d / 256) + d % 256);
            let a = be_to_nat(old(v)@) as int;
            let p8i = pow2((8 * i) as nat) as int;
            lemma_pow2_adds((8 * i) as nat, 8);
            assert(pow2((8 * i) as nat) * pow2(8) == pow2((8 * (i + 1)) as nat));
            assert((a * p8i + d / 256) * 256 + d % 256 == a * (p8i * 256) + d) by (nonlinear_arith)
                requires
                    d == 256 * (d / 256) + d % 256,
            ;
            assert(be_to_nat(v@) == 256 * be_to_nat(prev) + b);
        }
        i = i + 1;
    }
    proof {
        lemma2_to64();
        assert(pow2(0) == 1);
        assert((x as nat) / pow2(0) == x as nat);
    }
}

/// Builds the 32-byte big-endian string of a 256-bit constant given as
/// four 64-bit limbs, most significant first.
pub fn be_from_limbs(l3: u64, l2: u64, l1: u64, l0: u64) -> (r: Vec<u8>)
    ensures
        r@.len() == 32,
        be_to_nat(r@) == ((l3 * pow2(64) + l2) * pow2(64) + l1) * pow2(64) + l0,
{
    let mut v: Vec<u8> = Vec::new();
    proof {
        assert(be_to_nat(v@) == 0);
    }
    push_u64_be(&mut v, l3);
    push_u64_be(&mut v, l2);
    push_u64_be(&mut v, l1);
    push_u64_be(&mut v, l0);
    v
}

/// (a + b) % m over byte-string values.
pub fn mod_add_be(a: &Vec<u8>, b: &Vec<u8>, m: &Vec<u8>) -> (r: Vec<u8>)
    requires
        be_to_nat(m@) >= 1,
    ensures
        be_to_nat(r@) == (be_to_nat(a@) + be_to_nat(b@)) % be_to_nat(m@),
        be_to_nat(r@) < be_to_nat(m@),
        be_minimal(r@),
{
    let s = big_add(a, b);
    let r = big_rem(&s, m);
    proof {
        lemma_mod_bound((be_to_nat(a@) + be_to_nat(b@)) as int, be_to_nat(m@) as int);
    }
    r
}

/// (a * b) % m over byte-string values.
pub fn mod_mul_be(a: &Vec<u8>, b: &Vec<u8>, m: &Vec<u8>) -> (r: Vec<u8>)
    requires
        be_to_nat(m@) >= 1,
    ensures
        be_to_nat(r@) == (be_to_nat(a@) * be_to_nat(b@)) % be_to_nat(m@),
        be_to_nat(r@) < be_to_nat(m@),
        be_minimal(r@),
{
    let s = big_mul(a, b);
    let r = big_rem(&s, m);
    proof {
        lemma_mod_bound((be_to_nat(a@) * be_to_nat(b@)) as int, be_to_nat(m@) as int);
    }
    r
}

/// (a - b) % m over byte-string values already reduced below m, where the
/// result is the representative in [0, m) of the signed difference.
pub fn mod_sub_be(a: &Vec<u8>, b: &Vec<u8>, m: &Vec<u8>) -> (r: Vec<u8>)
    requires
        be_to_nat(a@) < be_to_nat(m@),
        be_to_nat(b@) < be_to_nat(m@),
    ensures
        be_to_nat(r@) == (be_to_nat(a@) - be_to_nat(b@)) % (be_to_nat(m@) as int),
        be_to_nat(r@) < be_to_nat(m@),
        be_minimal(r@),
{
    let d = big_sub(m, b);
    let s = big_add(a, &d);
    let r = big_rem(&s, m);
    proof {
        let av = be_to_nat(a@) as int;
        let bv = be_to_nat(b@) as int;
        let mv = be_to_nat(m@) as int;
        lemma_mod_multiples_vanish(1, av - bv, mv);
        assert(mv * 1 + (av - bv) == av + (mv - bv));
        lemma_mod_bound(av - bv, mv);
    }
    r
}

} // verus!
