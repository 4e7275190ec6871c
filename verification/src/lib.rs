//! A scriptless-script atomic-swap library for secp256k1.
//!
//! The crate provides elliptic-curve point arithmetic over the secp256k1
//! curve, the four-phase adaptor-signature protocol (pre-sign, pre-verify,
//! adapt, extract), and the byte-exact Bitcoin encodings (compact-size
//! integers, DER signatures, double-SHA256, segwit commitment hashes,
//! script builders, witness assembly) that carry an adaptor signature
//! on-chain, together with the swap orchestration around them.

pub mod errors;
pub mod bignum;
pub mod hashing;
pub mod encoding;
pub mod curve;
pub mod adaptor;
pub mod transaction;
pub mod swap;
