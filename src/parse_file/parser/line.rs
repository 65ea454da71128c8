use vstd::prelude::*;

use crate::indentation::Indentation;
use crate::parse_file::section::{Marker, Span};
use crate::parse_file::{Parse_Error, Syntax_Error};

verus! {

/// One line of a source file, classified.
#[derive(Clone, Copy, Debug, PartialEq, Eq)]
pub enum Line {
    CODE(Span),
    BEGIN_CODEGEN { marker: Marker, identifier: Span },
    END_CODEGEN { marker: Marker, checksum: Span },
}

/// `<< codegen `
pub open spec fn begin_token() -> Seq<u8> {
    seq![60u8, 60u8, 32u8, 99u8, 111u8, 100u8, 101u8, 103u8, 101u8, 110u8, 32u8]
}

/// `<< /codegen`
pub open spec fn end_token() -> Seq<u8> {
    seq![60u8, 60u8, 32u8, 47u8, 99u8, 111u8, 100u8, 101u8, 103u8, 101u8, 110u8]
}

/// `>>`
pub open spec fn close_token() -> Seq<u8> {
    seq![62u8, 62u8]
}

pub open spec fn is_letter(b: u8) -> bool {
    (65 <= b <= 90) || (97 <= b <= 122) || b == 95
}

pub open spec fn is_digit(b: u8) -> bool {
    48 <= b <= 57
}

pub open spec fn is_hex(b: u8) -> bool {
    is_digit(b) || (97 <= b <= 102) || (65 <= b <= 70)
}

pub open spec fn is_ident_char(b: u8) -> bool {
    is_letter(b) || is_digit(b)
}

pub open spec fn is_alnum(b: u8) -> bool {
    (65 <= b <= 90) || (97 <= b <= 122) || is_digit(b)
}

/// Whether `src[i..end]` begins with `tok`.
pub open spec fn has_at(src: Seq<u8>, i: int, end: int, tok: Seq<u8>) -> bool {
    0 <= i && i + tok.len() <= end && src.subrange(i, i + tok.len()) == tok
}

/// The end of the longest run of bytes from `i` on, before `end`, that all meet `p`.
pub open spec fn run_end(src: Seq<u8>, i: int, end: int, p: spec_fn(u8) -> bool) -> int
    decreases end - i,
{
    if i < end && p(src[i]) {
        run_end(src, i + 1, end, p)
    } else {
        i
    }
}

/// Where the first `<<` of `src[i..end]` stands, if anywhere.
pub open spec fn first_open(src: Seq<u8>, i: int, end: int) -> Option<int>
    decreases end - i,
{
    if i + 1 >= end {
        None
    } else if src[i] == 60u8 && src[i + 1] == 60u8 {
        Some(i)
    } else {
        first_open(src, i + 1, end)
    }
}

/// A checksum field is an even number of at most 64 hex digits.
pub open spec fn valid_checksum(src: Seq<u8>, c: Span) -> bool {
    &&& (c.end - c.start) % 2 == 0
    &&& c.end - c.start <= 64
    &&& forall|k: int| c.start <= k < c.end ==> is_hex(src[k])
}

/// The marker whose token starts at `p` on the line `start..end`, with its
/// after-text starting at `after`.
pub open spec fn marker_at(src: Seq<u8>, start: int, p: int, after: int, end: int) -> Marker {
    let ind = run_end(src, start, p, |b: u8| b == 32u8);
    Marker {
        indentation: Indentation((ind - start) as usize),
        before_marker: Span { start: ind as usize, end: p as usize },
        after_marker: Span { start: after as usize, end: end as usize },
    }
}

/// What the line `src[start..end]` (without its line break) is.
///
/// The first `<<` of the line opens its marker, if any: so the text before a
/// marker never holds `<<` and never ends in `<`. A begin marker is
/// `<< codegen `, an identifier and ` >>`; an end marker is
/// `<< /codegen`, then either a space, a field of letters and digits and an
/// optional space, or nothing, and then `>>`. A line whose first `<<` starts a
/// begin token, or an end token followed by a space or `>`, and that does not
/// go on as above is a syntax error; a line whose first `<<` starts neither is
/// code.
#[verifier::opaque]
pub open spec fn line_spec(src: Seq<u8>, start: int, end: int) -> Result<Line, Parse_Error> {
    let bad = Err(Parse_Error::SYNTAX(Syntax_Error { offset: start as usize }));
    match first_open(src, start, end) {
        None => Ok(Line::CODE(Span { start: start as usize, end: end as usize })),
        Some(p) => if has_at(src, p, end, begin_token()) {
            let q = p + 11;
            let qe = run_end(src, q, end, |b: u8| is_ident_char(b));
            if qe == q || !is_letter(src[q]) || !(qe < end && src[qe] == 32u8) || !has_at(src, qe + 1, end, close_token()) {
                bad
            } else {
                Ok(Line::BEGIN_CODEGEN {
                    marker: marker_at(src, start, p, qe + 3, end),
                    identifier: Span { start: q as usize, end: qe as usize },
                })
            }
        } else if has_at(src, p, end, end_token()) && p + 11 < end && (src[p + 11] == 32u8 || src[p + 11] == 62u8) {
            let q = p + 11;
            let cs = if src[q] == 32u8 { q + 1 } else { q };
            let ce = run_end(src, cs, end, |b: u8| is_alnum(b));
            let r = if ce < end && src[ce] == 32u8 { ce + 1 } else { ce };
            let c = Span { start: cs as usize, end: ce as usize };
            if !has_at(src, r, end, close_token()) {
                bad
            } else if !valid_checksum(src, c) {
                Err(Parse_Error::INVALID_CHECKSUM(c))
            } else {
                Ok(Line::END_CODEGEN { marker: marker_at(src, start, p, r + 2, end), checksum: c })
            }
        } else {
            Ok(Line::CODE(Span { start: start as usize, end: end as usize }))
        },
    }
}

/// The spans of a classified line lie within it.
pub proof fn lemma_line_spec_spans(src: Seq<u8>, start: int, end: int)
    requires
        0 <= start <= end <= src.len(),
        src.len() <= usize::MAX,
    ensures
        line_spec(src, start, end) matches Ok(Line::END_CODEGEN { marker, checksum }) ==> {
            &&& start <= checksum.start <= checksum.end <= end
            &&& valid_checksum(src, checksum)
            &&& marker_spans(src, start, end, marker)
        },
        line_spec(src, start, end) matches Ok(Line::BEGIN_CODEGEN { marker, identifier }) ==> {
            &&& start < identifier.start < identifier.end <= end
            &&& is_letter(src[identifier.start as int])
            &&& forall|k: int| identifier.start <= k < identifier.end ==> is_ident_char(src[k])
            &&& marker_spans(src, start, end, marker)
        },
{
    reveal(line_spec);
    match first_open(src, start, end) {
        None => {},
        Some(p) => {
            lemma_first_open(src, start, end);
            crate::parse_file::parser::lemma_run_end(src, start, p, |b: u8| b == 32u8);
            if has_at(src, p, end, begin_token()) {
                crate::parse_file::parser::lemma_run_end(src, p + 11, end, |b: u8| is_ident_char(b));
            } else if has_at(src, p, end, end_token()) && p + 11 < end {
                let q = p + 11;
                let cs = if src[q] == 32u8 { q + 1 } else { q };
                crate::parse_file::parser::lemma_run_end(src, cs, end, |b: u8| is_alnum(b));
            }
        },
    }
}

pub proof fn lemma_first_open(src: Seq<u8>, i: int, end: int)
    ensures
        first_open(src, i, end) matches Some(p) ==> i <= p && p + 1 < end,
    decreases end - i,
{
    if i + 1 < end && !(src[i] == 60u8 && src[i + 1] == 60u8) {
        lemma_first_open(src, i + 1, end);
    }
}

/// The spans of a marker on the line `start..end` lie within it, in order, the
/// indentation being the spaces that open the line.
pub open spec fn marker_spans(src: Seq<u8>, start: int, end: int, m: Marker) -> bool {
    &&& start + m.indentation.0 == m.before_marker.start
    &&& m.before_marker.start <= m.before_marker.end <= m.after_marker.start <= m.after_marker.end == end
    &&& forall|k: int| start <= k < m.before_marker.start ==> src[k] == 32u8
}

fn is_letter_exec(b: u8) -> (r: bool)
    ensures
        r == is_letter(b),
{
    (65 <= b && b <= 90) || (97 <= b && b <= 122) || b == 95
}

fn is_hex_exec(b: u8) -> (r: bool)
    ensures
        r == is_hex(b),
{
    (48 <= b && b <= 57) || (97 <= b && b <= 102) || (65 <= b && b <= 70)
}

fn all_hex(src: &[u8], cs: usize, ce: usize) -> (r: bool)
    requires
        cs <= ce <= src@.len(),
    ensures
        r == forall|j: int| cs <= j < ce ==> is_hex(src@[j]),
{
    let mut k = cs;
    while k < ce
        invariant
            cs <= k <= ce <= src@.len(),
            forall|j: int| cs <= j < k ==> is_hex(src@[j]),
        decreases ce - k,
    {
        if !is_hex_exec(src[k]) {
            return false;
        }
        k = k + 1;
    }
    true
}

fn has_at_exec(src: &[u8], i: usize, end: usize, tok: &[u8]) -> (r: bool)
    requires
        end <= src@.len(),
    ensures
        r == has_at(src@, i as int, end as int, tok@),
{
    if i > end || tok.len() > end - i {
        return false;
    }
    let mut k: usize = 0;
    while k < tok.len()
        invariant
            k <= tok@.len(),
            i + tok@.len() <= end <= src@.len(),
            forall|j: int| 0 <= j < k ==> src@[i + j] == tok@[j],
        decreases tok@.len() - k,
    {
        if src[i + k] != tok[k] {
            assert(src@.subrange(i as int, i + tok@.len())[k as int] != tok@[k as int]);
            return false;
        }
        k = k + 1;
    }
    assert(src@.subrange(i as int, i + tok@.len()) =~= tok@);
    true
}

/// The end of the run of spaces (`kind == 0`), identifier chars (`kind == 1`)
/// or letters and digits (`kind == 2`) that starts at `i`.
fn run_end_exec(src: &[u8], i: usize, end: usize, kind: u8) -> (r: usize)
    requires
        i <= end <= src@.len(),
    ensures
        kind == 0 ==> r == run_end(src@, i as int, end as int, |b: u8| b == 32u8),
        kind == 1 ==> r == run_end(src@, i as int, end as int, |b: u8| is_ident_char(b)),
        kind == 2 ==> r == run_end(src@, i as int, end as int, |b: u8| is_alnum(b)),
        i <= r <= end,
    decreases end - i,
{
    if i >= end {
        return i;
    }
    let b = src[i];
    let ok = if kind == 0 {
        b == 32
    } else if kind == 1 {
        (65 <= b && b <= 90) || (97 <= b && b <= 122) || b == 95 || (48 <= b && b <= 57)
    } else {
        (65 <= b && b <= 90) || (97 <= b && b <= 122) || (48 <= b && b <= 57)
    };
    if ok {
        run_end_exec(src, i + 1, end, kind)
    } else {
        i
    }
}

fn first_open_exec(src: &[u8], start: usize, end: usize) -> (r: Option<usize>)
    requires
        start <= end <= src@.len(),
    ensures
        r matches Some(p) ==> first_open(src@, start as int, end as int) == Some(p as int),
        r is None ==> first_open(src@, start as int, end as int) is None,
        r matches Some(p) ==> start <= p && p + 1 < end,
{
    let mut i = start;
    while i < end && end - i > 1
        invariant
            start <= i <= end <= src@.len(),
            first_open(src@, start as int, end as int) == first_open(src@, i as int, end as int),
        decreases end - i,
    {
        if src[i] == 60 && src[i + 1] == 60 {
            return Some(i);
        }
        i = i + 1;
    }
    None
}

/// Classifies the line `src[start..end]`, which holds no line break.
pub fn parse(src: &[u8], start: usize, end: usize) -> (r: Result<Line, Parse_Error>)
    requires
        start <= end <= src@.len(),
    ensures
        r == line_spec(src@, start as int, end as int),
{
    reveal(line_spec);
    let bad = Err(Parse_Error::SYNTAX(Syntax_Error { offset: start }));
    let p = match first_open_exec(src, start, end) {
        None => {
            return Ok(Line::CODE(Span { start, end }));
        },
        Some(p) => p,
    };
    let begin_tok: [u8; 11] = [60, 60, 32, 99, 111, 100, 101, 103, 101, 110, 32];
    let end_tok: [u8; 11] = [60, 60, 32, 47, 99, 111, 100, 101, 103, 101, 110];
    let close_tok: [u8; 2] = [62, 62];
    assert(begin_tok@ =~= begin_token());
    assert(end_tok@ =~= end_token());
    assert(close_tok@ =~= close_token());
    let ind = run_end_exec(src, start, p, 0);
    if has_at_exec(src, p, end, &begin_tok) {
        let q = p + 11;
        let qe = run_end_exec(src, q, end, 1);
        if qe == q || !is_letter_exec(src[q]) || !(qe < end && src[qe] == 32) || !has_at_exec(src, qe + 1, end, &close_tok) {
            return bad;
        }
        let marker = Marker {
            indentation: Indentation(ind - start),
            before_marker: Span { start: ind, end: p },
            after_marker: Span { start: qe + 3, end },
        };
        return Ok(Line::BEGIN_CODEGEN { marker, identifier: Span { start: q, end: qe } });
    }
    if has_at_exec(src, p, end, &end_tok) && p + 11 < end && (src[p + 11] == 32 || src[p + 11] == 62) {
        let q = p + 11;
        let cs = if src[q] == 32 { q + 1 } else { q };
        let ce = run_end_exec(src, cs, end, 2);
        let r = if ce < end && src[ce] == 32 { ce + 1 } else { ce };
        let c = Span { start: cs, end: ce };
        if !has_at_exec(src, r, end, &close_tok) {
            return bad;
        }
        if (ce - cs) % 2 != 0 || ce - cs > 64 {
            return Err(Parse_Error::INVALID_CHECKSUM(c));
        }
        if !all_hex(src, cs, ce) {
            return Err(Parse_Error::INVALID_CHECKSUM(c));
        }
        let marker = Marker {
            indentation: Indentation(ind - start),
            before_marker: Span { start: ind, end: p },
            after_marker: Span { start: r + 2, end },
        };
        return Ok(Line::END_CODEGEN { marker, checksum: c });
    }
    Ok(Line::CODE(Span { start, end }))
}

/// The marker and identifier of a begin marker line.
pub fn parse_begin_marker(line: Line) -> (r: Option<(Marker, Span)>)
    ensures
        r == match line {
            Line::BEGIN_CODEGEN { marker, identifier } => Some((marker, identifier)),
            _ => None::<(Marker, Span)>,
        },
{
    match line {
        Line::BEGIN_CODEGEN { marker, identifier } => Some((marker, identifier)),
        _ => None,
    }
}

/// The marker and checksum field of an end marker line.
pub fn parse_end_marker(line: Line) -> (r: Option<(Marker, Span)>)
    ensures
        r == match line {
            Line::END_CODEGEN { marker, checksum } => Some((marker, checksum)),
            _ => None::<(Marker, Span)>,
        },
{
    match line {
        Line::END_CODEGEN { marker, checksum } => Some((marker, checksum)),
        _ => None,
    }
}

} // verus!
