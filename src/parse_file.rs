use vstd::prelude::*;

pub mod section;
pub mod parser;

pub use section::{Section, Marker, Span, Region};
pub use parser::parse as find;

verus! {

/// Where a marker line is malformed or unmatched: the offset of that line's
/// first byte.
#[derive(Clone, Copy, Debug, PartialEq, Eq)]
pub struct Syntax_Error {
    pub offset: usize,
}

/// Why a source file does not parse.
#[derive(Clone, Copy, Debug, PartialEq, Eq)]
pub enum Parse_Error {
    SYNTAX(Syntax_Error),
    /// The checksum field of an end marker, where it is not an even number of
    /// at most 64 hex digits.
    INVALID_CHECKSUM(Span),
}

} // verus!
