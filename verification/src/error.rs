//! The decoder's error taxonomy.

use vstd::prelude::*;

verus! {

/// Why a block, integer or string failed to decode.
///
/// Every failure is local to a single `decode` call; the codec must be
/// considered tainted afterwards, because the peer's dynamic table state
/// is then indeterminate.
#[derive(Debug, Clone, Copy, PartialEq, Eq, Structural)]
pub enum DecodeError {
    /// Decode was called where at least one octet was required but none remained.
    EmptyInput,
    /// A declared length or a continuation chain ran past the end of the input.
    Truncated,
    /// An indexed representation named index 0, or an index past the table.
    InvalidIndex,
    /// A string carried the H flag; Huffman coding is not supported here.
    HuffmanUnsupported,
    /// An integer's continuation chain does not fit in a `u64`.
    IntegerOverflow,
}

impl DecodeError {
    /// A short human-readable description of the error.
    pub fn describe(&self) -> (r: &'static str)
        ensures
            r@.len() > 0,
    {
        let s = match self {
            DecodeError::EmptyInput => "decode input is empty",
            DecodeError::Truncated => "decode input is truncated",
            DecodeError::InvalidIndex => "header index is out of range",
            DecodeError::HuffmanUnsupported => "Huffman-coded strings are not supported",
            DecodeError::IntegerOverflow => "integer does not fit in 64 bits",
        };
        proof {
            reveal_strlit("decode input is empty");
            reveal_strlit("decode input is truncated");
            reveal_strlit("header index is out of range");
            reveal_strlit("Huffman-coded strings are not supported");
            reveal_strlit("integer does not fit in 64 bits");
        }
        s
    }
}

} // verus!
