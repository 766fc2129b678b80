//! Error values of the indexing pipeline.

use vstd::prelude::*;

verus! {

/// A hex-encoded aggregation bitfield could not be decoded: the string
/// holds a character that is not a hexadecimal digit, or no digits at all.
/// The pipeline skips the slot whose bitfield failed to decode.
#[derive(Clone, Copy, Debug, PartialEq, Eq, Structural)]
pub struct DecodeError;

/// The stored records do not support a participation rate: the window is
/// empty or its validator-set sum is zero, so the rate's denominator would
/// be zero. Callers substitute a default rate for display.
#[derive(Clone, Copy, Debug, PartialEq, Eq, Structural)]
pub struct InsufficientDataError;

} // verus!
