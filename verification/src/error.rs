//! The ways in which unpacking fails.

use vstd::prelude::*;

verus! {

/// Why a file could not be unpacked. No failure leaves a partial result.
#[derive(Clone, Copy, Debug, PartialEq, Eq, Structural)]
pub enum UnpackError {
    /// A section, an offset or a range of bytes that is needed is missing or
    /// lies outside the file.
    Format,
    /// The file does not carry the one wrapper variant that is handled.
    UnsupportedVariant,
    /// The decoded control header does not start with its signature.
    Integrity,
    /// The encrypted code is not a whole number of cipher blocks.
    Crypto,
}

} // verus!
