//! Errors of the packet codec.
use vstd::prelude::*;

verus! {

/// Writing a packet field failed.
#[derive(Debug, Copy, Clone)]
pub struct EncodeError;

/// Reading a packet field failed.
#[derive(Debug, Copy, Clone)]
pub enum DecodeError {
    /// The input ended or held something malformed ("malformed packet").
    Incomplete,
    /// A field is longer than it may be ("item too long").
    TooLong,
    /// A field holds a value outside its allowed set ("invalid value").
    InvalidValue,
}

} // verus!
