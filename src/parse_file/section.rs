use arrayvec::ArrayVec;
use vstd::prelude::*;

use crate::checksum::stored_bytes;
use crate::indentation::Indentation;

verus! {

/// The bytes `start..end` of the source a value was parsed from.
#[derive(Clone, Copy, Debug, PartialEq, Eq)]
pub struct Span {
    pub start: usize,
    pub end: usize,
}

/// What surrounds a marker token on its line: the spaces that open the line,
/// the text between them and the token, and the text after the token (without
/// the line break).
#[derive(Clone, Copy, Debug, PartialEq, Eq)]
pub struct Marker {
    pub indentation: Indentation,
    pub before_marker: Span,
    pub after_marker: Span,
}

/// A piece of a source file: hand-written text kept as it is, or a delimited
/// region whose code a producer writes.
#[derive(Debug, PartialEq, Eq)]
pub enum Section {
    HANDWRITTEN(Span),
    CODEGEN {
        identifier: Span,
        code: Span,
        checksum: ArrayVec<u8, 32>,
        begin: Marker,
        end: Marker,
    },
}

/// A section with its stored checksum as a sequence of bytes.
pub enum Region {
    Verbatim(Span),
    Generated {
        identifier: Span,
        code: Span,
        checksum: Seq<u8>,
        begin: Marker,
        end: Marker,
    },
}

impl View for Section {
    type V = Region;

    open spec fn view(&self) -> Region {
        match *self {
            Section::HANDWRITTEN(s) => Region::Verbatim(s),
            Section::CODEGEN { identifier, code, checksum, begin, end } => Region::Generated {
                identifier,
                code,
                checksum: stored_bytes(checksum),
                begin,
                end,
            },
        }
    }
}

} // verus!
