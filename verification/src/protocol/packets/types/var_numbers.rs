//! Constants of the 7-bit group format and the errors of its readers.
use vstd::prelude::*;

verus! {

/// Number of value bits in each byte.
pub const SEGSZ: usize = 7;

/// The bit of a byte that says another byte follows (`1 << SEGSZ`).
pub const CONTINUE_BIT: u8 = 0x80;

/// The value bits of a byte (`CONTINUE_BIT - 1`).
pub const SEGMENT_MASK: u8 = 0x7f;

/// Why a variable-length number could not be read.
#[derive(Debug)]
pub enum VarDecodeError {
    /// "incomplete Var decode": the input ended first.
    Incomplete,
    /// "Var is too large": the most bytes allowed were read, all with the continue bit set.
    TooLarge,
}

} // verus!
