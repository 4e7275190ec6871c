use vstd::prelude::*;

verus! {

/// The error taxonomy of the library.
///
/// Cryptographic and encoding errors are never swallowed or replaced with
/// placeholder values: every fallible operation surfaces one of these.
#[derive(Clone, Copy, Debug, PartialEq, Eq, Structural)]
pub enum SwapError {
    /// A modular inverse does not exist for a value that should be invertible.
    ArithmeticError,
    /// A signature component (r or s') is zero mod the curve order; the caller
    /// should resample the nonce.
    DegenerateSignatureError,
    /// Malformed hex, or push data out of range for the script format.
    EncodingError,
    /// The selected unspent outputs cannot cover amount plus fee.
    InsufficientFundsError,
    /// A malformed outpoint or transaction id.
    ParseError,
    /// A protocol path whose locktime and script semantics are not yet
    /// specified; surfaced explicitly rather than as a silent no-op.
    NotImplemented,
}

/// Error for balance queries against an external node, which the library
/// itself never performs.
#[derive(Clone, Copy, Debug, PartialEq, Eq, Structural)]
pub enum BalanceError {
    MissingCodeCantRun,
}

} // verus!
