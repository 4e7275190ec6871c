//! SHA-256 and RIPEMD-160 digests.
//!
//! The digests themselves are computed by the `bitcoin_hashes` crate; the
//! contracts name each digest as a function of the input bytes alone, so
//! that every caller's contract can say exactly which bytes were hashed.

use vstd::prelude::*;

verus! {

/// The SHA-256 digest (32 bytes) of a byte string.
pub uninterp spec fn sha256_of(s: Seq<u8>) -> Seq<u8>;

/// The RIPEMD-160 digest (20 bytes) of a byte string.
pub uninterp spec fn ripemd160_of(s: Seq<u8>) -> Seq<u8>;

/// Relies on bitcoin_hashes::sha256::hash: the 32-byte SHA-256 digest, a
/// function of the input bytes alone.
#[verifier::external_body]
fn sha256_raw(data: &Vec<u8>) -> (r: Vec<u8>)
    ensures
        r@ == sha256_of(data@),
        r@.len() == 32,
{
    bitcoin_hashes::sha256::hash(data.as_slice()).to_byte_array().to_vec()
}

/// Relies on bitcoin_hashes::ripemd160::hash: the 20-byte RIPEMD-160
/// digest, a function of the input bytes alone.
#[verifier::external_body]
fn ripemd160_raw(data: &Vec<u8>) -> (r: Vec<u8>)
    ensures
        r@ == ripemd160_of(data@),
        r@.len() == 20,
{
    bitcoin_hashes::ripemd160::hash(data.as_slice()).to_byte_array().to_vec()
}

/// The SHA-256 digest of a byte string.
pub fn sha256_digest(message: &Vec<u8>) -> (r: Vec<u8>)
    ensures
        r@ == sha256_of(message@),
        r@.len() == 32,
{
    sha256_raw(message)
}

/// Double SHA-256: the digest of the digest, as Bitcoin hashes
/// transactions and commitment preimages.
pub fn dsha256(message: &Vec<u8>) -> (r: Vec<u8>)
    ensures
        r@ == sha256_of(sha256_of(message@)),
        r@.len() == 32,
{
    let first = sha256_raw(message);
    sha256_raw(&first)
}

/// HASH160: RIPEMD-160 of SHA-256, as Bitcoin hashes public keys.
pub fn hash160(message: &Vec<u8>) -> (r: Vec<u8>)
    ensures
        r@ == ripemd160_of(sha256_of(message@)),
        r@.len() == 20,
{
    let first = sha256_raw(message);
    ripemd160_raw(&first)
}

} // verus!
