use arrayvec::ArrayVec;
use vstd::prelude::*;
use vstd::string::StringSliceAdditionalSpecFns;

use crate::checksum::{checksum_new, checksum_push, stored_bytes};
use crate::parse_file::section::{Marker, Region, Section, Span};
use crate::parse_file::{Parse_Error, Syntax_Error};

pub mod line;

use line::{is_digit, is_hex, line_spec, run_end, Line};

verus! {

/// The sections of a source file, in order.
pub type Section_List = Vec<Section>;

/// Where the line that starts at `i` ends: at its line break, or at the end of
/// `src`.
pub open spec fn line_end(src: Seq<u8>, i: int) -> int {
    run_end(src, i, src.len() as int, |b: u8| b != 10u8)
}

/// Where the line after the one that starts at `i` starts.
pub open spec fn next_line(src: Seq<u8>, i: int) -> int {
    let e = line_end(src, i);
    if e < src.len() {
        e + 1
    } else {
        e
    }
}

/// The value of a hex digit.
pub open spec fn hex_value(b: u8) -> u8 {
    if is_digit(b) {
        (b - 48) as u8
    } else if 97 <= b <= 102 {
        (b - 87) as u8
    } else {
        (b - 55) as u8
    }
}

/// The bytes that a string of hex digit pairs stands for, high half first.
pub open spec fn hex_decode(s: Seq<u8>) -> Seq<u8>
    decreases s.len(),
{
    if s.len() < 2 {
        Seq::empty()
    } else {
        hex_decode(s.subrange(0, s.len() - 2)).push(
            (hex_value(s[s.len() - 2]) * 16 + hex_value(s[s.len() - 1])) as u8,
        )
    }
}

/// Scanning the lines of a region from `q` on, for the one that begins at `b`:
/// the start of its end marker line, with that line's marker and checksum
/// field. Fails on a begin marker, a malformed marker line, or the end of the
/// source.
pub open spec fn region_end(src: Seq<u8>, q: int, b: int) -> Result<(int, Marker, Span), Parse_Error>
    decreases src.len() - q via region_end_decreases
{
    if q < 0 || q >= src.len() {
        Err(Parse_Error::SYNTAX(Syntax_Error { offset: b as usize }))
    } else {
        match line_spec(src, q, line_end(src, q)) {
            Err(e) => Err(e),
            Ok(Line::CODE(_)) => region_end(src, next_line(src, q), b),
            Ok(Line::BEGIN_CODEGEN { .. }) => Err(Parse_Error::SYNTAX(Syntax_Error { offset: q as usize })),
            Ok(Line::END_CODEGEN { marker, checksum }) => Ok((q, marker, checksum)),
        }
    }
}

/// A verbatim region for `verb..pos`, where that is not empty.
pub open spec fn verbatim_until(verb: int, pos: int) -> Seq<Region> {
    if verb < pos {
        seq![Region::Verbatim(Span { start: verb as usize, end: pos as usize })]
    } else {
        Seq::empty()
    }
}

/// The regions of `src` from the line that starts at `pos` on, where the
/// verbatim text not yet put in a region starts at `verb`.
pub open spec fn sections_from(src: Seq<u8>, pos: int, verb: int) -> Result<Seq<Region>, Parse_Error>
    decreases src.len() - pos via sections_from_decreases
{
    if pos < 0 || pos >= src.len() {
        Ok(verbatim_until(verb, src.len() as int))
    } else {
        let e = line_end(src, pos);
        match line_spec(src, pos, e) {
            Err(x) => Err(x),
            Ok(Line::CODE(_)) => sections_from(src, next_line(src, pos), verb),
            Ok(Line::END_CODEGEN { .. }) => Err(Parse_Error::SYNTAX(Syntax_Error { offset: pos as usize })),
            Ok(Line::BEGIN_CODEGEN { marker, identifier }) => match generated_at(src, pos, e, marker, identifier) {
                Err(x) => Err(x),
                Ok((g, n)) => match sections_from(src, n, n) {
                    Err(x) => Err(x),
                    Ok(rest) => Ok(verbatim_until(verb, pos) + seq![g] + rest),
                },
            },
        }
    }
}

/// The generated region whose begin marker line is `pos..e`, with the start of
/// the line after its end marker line.
pub open spec fn generated_at(src: Seq<u8>, pos: int, e: int, marker: Marker, identifier: Span) -> Result<(Region, int), Parse_Error> {
    if e >= src.len() {
        Err(Parse_Error::SYNTAX(Syntax_Error { offset: pos as usize }))
    } else {
        match region_end(src, e + 1, pos) {
            Err(x) => Err(x),
            Ok((q, m2, c)) => Ok((
                Region::Generated {
                    identifier,
                    code: Span { start: (e + 1) as usize, end: q as usize },
                    checksum: hex_decode(src.subrange(c.start as int, c.end as int)),
                    begin: marker,
                    end: m2,
                },
                next_line(src, q),
            )),
        }
    }
}

/// The spans of a region lie within `src`, in order; a stored checksum has at
/// most 32 bytes.
pub open spec fn region_wf(src: Seq<u8>, r: Region) -> bool {
    match r {
        Region::Verbatim(s) => span_in(src, s),
        Region::Generated { identifier, code, checksum, begin, end } => {
            &&& span_in(src, identifier)
            &&& span_in(src, code)
            &&& span_in(src, begin.before_marker)
            &&& span_in(src, begin.after_marker)
            &&& span_in(src, end.before_marker)
            &&& span_in(src, end.after_marker)
            &&& checksum.len() <= 32
        },
    }
}

pub open spec fn span_in(src: Seq<u8>, s: Span) -> bool {
    s.start <= s.end <= src.len()
}

pub proof fn lemma_hex_decode_len(s: Seq<u8>)
    ensures
        hex_decode(s).len() == s.len() / 2,
    decreases s.len(),
{
    if s.len() >= 2 {
        lemma_hex_decode_len(s.subrange(0, s.len() - 2));
    }
}

pub proof fn lemma_sections_wf(src: Seq<u8>, pos: int, verb: int)
    requires
        0 <= verb <= pos,
        src.len() <= usize::MAX,
    ensures
        sections_from(src, pos, verb) matches Ok(rs) ==> forall|k: int| 0 <= k < rs.len() ==> region_wf(src, #[trigger] rs[k]),
    decreases src.len() - pos,
{
    if 0 <= pos < src.len() {
        lemma_next_line(src, pos);
        let e = line_end(src, pos);
        line::lemma_line_spec_spans(src, pos, e);
        match line_spec(src, pos, e) {
            Ok(Line::CODE(_)) => {
                lemma_sections_wf(src, next_line(src, pos), verb);
            },
            Ok(Line::BEGIN_CODEGEN { marker, identifier }) => {
                lemma_generated_after(src, pos, e, marker, identifier);
                if let Ok((g, n)) = generated_at(src, pos, e, marker, identifier) {
                    lemma_sections_wf(src, n, n);
                    lemma_region_end_after(src, e + 1, pos);
                    lemma_region_end_line(src, e + 1, pos);
                    if let Ok((q, m2, c)) = region_end(src, e + 1, pos) {
                        lemma_next_line(src, q);
                        line::lemma_line_spec_spans(src, q, line_end(src, q));
                        lemma_hex_decode_len(src.subrange(c.start as int, c.end as int));
                    }
                    if let Ok(rest) = sections_from(src, n, n) {
                        let all = verbatim_until(verb, pos) + seq![g] + rest;
                        assert forall|k: int| 0 <= k < all.len() implies region_wf(src, #[trigger] all[k]) by {
                            if k >= verbatim_until(verb, pos).len() + 1 {
                                assert(all[k] == rest[k - verbatim_until(verb, pos).len() - 1]);
                            }
                        }
                    }
                }
            },
            _ => {},
        }
    }
}

/// The bytes of `src` that a region covers: a verbatim span, or a generated
/// region from the start of its begin marker line to the end of its end marker
/// line, with that line's break.
pub open spec fn region_text(src: Seq<u8>, r: Region) -> Seq<u8> {
    match r {
        Region::Verbatim(s) => src.subrange(s.start as int, s.end as int),
        Region::Generated { begin, end, .. } => {
            let from = begin.before_marker.start - begin.indentation.0;
            let to = end.after_marker.end as int;
            src.subrange(from, if to < src.len() { to + 1 } else { to })
        },
    }
}

/// The regions' texts, one after the other.
pub open spec fn joined(src: Seq<u8>, rs: Seq<Region>) -> Seq<u8>
    decreases rs.len(),
{
    if rs.len() == 0 {
        Seq::empty()
    } else {
        region_text(src, rs[0]) + joined(src, rs.drop_first())
    }
}

pub proof fn lemma_joined_concat(src: Seq<u8>, a: Seq<Region>, b: Seq<Region>)
    ensures
        joined(src, a + b) == joined(src, a) + joined(src, b),
    decreases a.len(),
{
    if a.len() == 0 {
        assert(a + b =~= b);
    } else {
        assert((a + b).drop_first() =~= a.drop_first() + b);
        lemma_joined_concat(src, a.drop_first(), b);
        assert(joined(src, a + b) =~= joined(src, a) + joined(src, b));
    }
}

proof fn lemma_joined_single(src: Seq<u8>, r: Region)
    ensures
        joined(src, seq![r]) == region_text(src, r),
{
    assert(seq![r].drop_first() =~= Seq::<Region>::empty());
    assert(joined(src, Seq::<Region>::empty()) == Seq::<u8>::empty());
    assert(region_text(src, r) + Seq::<u8>::empty() =~= region_text(src, r));
}

proof fn lemma_sections_lossless(src: Seq<u8>, pos: int, verb: int)
    requires
        0 <= verb <= pos <= src.len(),
        src.len() <= usize::MAX,
    ensures
        sections_from(src, pos, verb) matches Ok(rs) ==> joined(src, rs) == src.subrange(verb, src.len() as int),
    decreases src.len() - pos,
{
    if pos >= src.len() {
        if verb < src.len() {
            let v = verbatim_until(verb, src.len() as int);
            lemma_joined_single(src, v[0]);
            assert(v =~= seq![v[0]]);
        } else {
            assert(joined(src, Seq::<Region>::empty()) == Seq::<u8>::empty());
            assert(src.subrange(verb, src.len() as int) =~= Seq::<u8>::empty());
        }
    } else {
        lemma_next_line(src, pos);
        let e = line_end(src, pos);
        line::lemma_line_spec_spans(src, pos, e);
        match line_spec(src, pos, e) {
            Ok(Line::CODE(_)) => {
                lemma_sections_lossless(src, next_line(src, pos), verb);
            },
            Ok(Line::BEGIN_CODEGEN { marker, identifier }) => {
                lemma_generated_after(src, pos, e, marker, identifier);
                if let Ok((g, n)) = generated_at(src, pos, e, marker, identifier) {
                    lemma_sections_lossless(src, n, n);
                    lemma_region_end_after(src, e + 1, pos);
                    lemma_region_end_line(src, e + 1, pos);
                    if let Ok((q, m2, c)) = region_end(src, e + 1, pos) {
                        lemma_next_line(src, q);
                        line::lemma_line_spec_spans(src, q, line_end(src, q));
                        assert(region_text(src, g) =~= src.subrange(pos, n));
                    }
                    if let Ok(rest) = sections_from(src, n, n) {
                        let v = verbatim_until(verb, pos);
                        lemma_joined_concat(src, v + seq![g], rest);
                        lemma_joined_concat(src, v, seq![g]);
                        assert(seq![g].drop_first() =~= Seq::<Region>::empty());
                        lemma_joined_single(src, g);
                        if verb < pos {
                            lemma_joined_single(src, v[0]);
                            assert(v =~= seq![v[0]]);
                            assert(joined(src, v) == src.subrange(verb, pos));
                        } else {
                            assert(joined(src, Seq::<Region>::empty()) == Seq::<u8>::empty());
                            assert(joined(src, v) =~= src.subrange(verb, pos));
                        }
                        assert(src.subrange(verb, src.len() as int) =~= src.subrange(verb, pos) + src.subrange(pos, n) + src.subrange(n, src.len() as int));
                    }
                }
            },
            _ => {},
        }
    }
}

/// Parsing loses nothing: the regions' texts, one after the other, are the
/// whole source.
pub proof fn lemma_parse_lossless(src: Seq<u8>)
    requires
        src.len() <= usize::MAX,
    ensures
        parse_spec(src) matches Ok(rs) ==> joined(src, rs) == src,
{
    lemma_sections_lossless(src, 0, 0);
    assert(src.subrange(0, src.len() as int) =~= src);
}

/// The regions of a whole source file.
pub open spec fn parse_spec(src: Seq<u8>) -> Result<Seq<Region>, Parse_Error> {
    sections_from(src, 0, 0)
}

pub proof fn lemma_run_end(src: Seq<u8>, i: int, end: int, p: spec_fn(u8) -> bool)
    requires
        i <= end,
    ensures
        i <= run_end(src, i, end, p) <= end,
        run_end(src, i, end, p) < end ==> !p(src[run_end(src, i, end, p)]),
        forall|k: int| i <= k < run_end(src, i, end, p) ==> p(src[k]),
    decreases end - i,
{
    if i < end && p(src[i]) {
        lemma_run_end(src, i + 1, end, p);
    }
}

pub proof fn lemma_next_line(src: Seq<u8>, i: int)
    requires
        0 <= i < src.len(),
    ensures
        i < next_line(src, i) <= src.len(),
        i <= line_end(src, i) <= src.len(),
        line_end(src, i) < src.len() ==> src[line_end(src, i)] == 10u8,
        forall|k: int| i <= k < line_end(src, i) ==> src[k] != 10u8,
{
    lemma_run_end(src, i, src.len() as int, |b: u8| b != 10u8);
}

#[via_fn]
proof fn region_end_decreases(src: Seq<u8>, q: int, b: int) {
    if 0 <= q < src.len() {
        lemma_next_line(src, q);
    }
}

pub proof fn lemma_region_end_after(src: Seq<u8>, q: int, b: int)
    ensures
        region_end(src, q, b) matches Ok((e, m, c)) ==> q <= e < src.len(),
    decreases src.len() - q,
{
    if 0 <= q < src.len() {
        lemma_next_line(src, q);
        lemma_region_end_after(src, next_line(src, q), b);
    }
}

pub proof fn lemma_region_end_line(src: Seq<u8>, q: int, b: int)
    ensures
        region_end(src, q, b) matches Ok((e, m, c)) ==> line_spec(src, e, line_end(src, e)) == Ok::<Line, Parse_Error>(Line::END_CODEGEN { marker: m, checksum: c }),
    decreases src.len() - q,
{
    if 0 <= q < src.len() {
        lemma_next_line(src, q);
        lemma_region_end_line(src, next_line(src, q), b);
    }
}

pub proof fn lemma_generated_after(src: Seq<u8>, pos: int, e: int, marker: Marker, identifier: Span)
    requires
        0 <= pos <= e,
    ensures
        generated_at(src, pos, e, marker, identifier) matches Ok((g, n)) ==> pos < n <= src.len(),
{
    if e < src.len() {
        lemma_region_end_after(src, e + 1, pos);
        if let Ok((q, m, c)) = region_end(src, e + 1, pos) {
            lemma_next_line(src, q);
        }
    }
}

#[via_fn]
proof fn sections_from_decreases(src: Seq<u8>, pos: int, verb: int) {
    if 0 <= pos < src.len() {
        lemma_next_line(src, pos);
        let e = line_end(src, pos);
        if let Ok(Line::BEGIN_CODEGEN { marker, identifier }) = line_spec(src, pos, e) {
            lemma_generated_after(src, pos, e, marker, identifier);
        }
    }
}

/// The value of the hex digit `digit`.
pub fn hex_digit(digit: u8) -> (r: u8)
    requires
        is_hex(digit),
    ensures
        r == hex_value(digit),
        r < 16,
{
    if 48 <= digit && digit <= 57 {
        digit - 48
    } else if 97 <= digit && digit <= 102 {
        digit - 97 + 10
    } else {
        digit - 65 + 10
    }
}

/// The byte that two hex digits stand for, high half first.
pub fn u8_from_hex(digits: [u8; 2]) -> (r: u8)
    requires
        is_hex(digits[0]),
        is_hex(digits[1]),
    ensures
        r == hex_value(digits[0]) * 16 + hex_value(digits[1]),
{
    let hi = hex_digit(digits[0]);
    let lo = hex_digit(digits[1]);
    assert(((hi << 4u8) | lo) == hi * 16 + lo) by (bit_vector)
        requires
            hi < 16,
            lo < 16,
    ;
    (hi << 4) | lo
}

/// The bytes that a checksum field stands for.
pub fn parse_checksum(checksum: &[u8]) -> (r: ArrayVec<u8, 32>)
    requires
        checksum@.len() % 2 == 0,
        checksum@.len() <= 64,
        forall|k: int| 0 <= k < checksum@.len() ==> is_hex(checksum@[k]),
    ensures
        stored_bytes(r) == hex_decode(checksum@),
        stored_bytes(r).len() == checksum@.len() / 2,
{
    let mut xs = checksum_new();
    let mut i: usize = 0;
    while i < checksum.len() / 2
        invariant
            checksum@.len() % 2 == 0,
            checksum@.len() <= 64,
            forall|k: int| 0 <= k < checksum@.len() ==> is_hex(checksum@[k]),
            i <= checksum@.len() / 2,
            stored_bytes(xs) == hex_decode(checksum@.subrange(0, 2 * i)),
            stored_bytes(xs).len() == i,
        decreases checksum@.len() / 2 - i,
    {
        let x = u8_from_hex([checksum[2 * i], checksum[2 * i + 1]]);
        checksum_push(&mut xs, x);
        proof {
            let t = checksum@.subrange(0, 2 * i + 2);
            assert(t.subrange(0, t.len() - 2) =~= checksum@.subrange(0, 2 * i));
        }
        i = i + 1;
    }
    assert(checksum@.subrange(0, 2 * i) =~= checksum@);
    xs
}

fn line_end_exec(src: &[u8], i: usize) -> (r: usize)
    requires
        i <= src@.len(),
    ensures
        r == line_end(src@, i as int),
{
    let mut k = i;
    while k < src.len() && src[k] != 10
        invariant
            i <= k <= src@.len(),
            line_end(src@, i as int) == line_end(src@, k as int),
        decreases src@.len() - k,
    {
        k = k + 1;
    }
    k
}

fn find_region_end(src: &[u8], q: usize, b: usize) -> (r: Result<(usize, Marker, Span), Parse_Error>)
    requires
        q <= src@.len(),
    ensures
        match r {
            Ok((e, m, c)) => region_end(src@, q as int, b as int) == Ok::<(int, Marker, Span), Parse_Error>((e as int, m, c)),
            Err(x) => region_end(src@, q as int, b as int) == Err::<(int, Marker, Span), Parse_Error>(x),
        },
{
    let mut k = q;
    while k < src.len()
        invariant
            q <= k <= src@.len(),
            region_end(src@, q as int, b as int) == region_end(src@, k as int, b as int),
        decreases src@.len() - k,
    {
        let e = line_end_exec(src, k);
        proof {
            lemma_next_line(src@, k as int);
        }
        match line::parse(src, k, e) {
            Err(x) => {
                return Err(x);
            },
            Ok(Line::CODE(_)) => {
                k = if e < src.len() { e + 1 } else { e };
            },
            Ok(Line::BEGIN_CODEGEN { .. }) => {
                return Err(Parse_Error::SYNTAX(Syntax_Error { offset: k }));
            },
            Ok(Line::END_CODEGEN { marker, checksum }) => {
                return Ok((k, marker, checksum));
            },
        }
    }
    Err(Parse_Error::SYNTAX(Syntax_Error { offset: b }))
}

/// Combines the regions found so far with the outcome of parsing the rest.
pub open spec fn after(done: Seq<Region>, rest: Result<Seq<Region>, Parse_Error>) -> Result<Seq<Region>, Parse_Error> {
    match rest {
        Ok(r) => Ok(done + r),
        Err(e) => Err(e),
    }
}

/// Splits `code` into verbatim text and generated regions, which together
/// cover it exactly.
pub fn parse(code: &str) -> (r: Result<Section_List, Parse_Error>)
    ensures
        match r {
            Ok(v) => parse_spec(code.spec_bytes()) == Ok::<Seq<Region>, Parse_Error>(v@.map_values(|s: Section| s@)),
            Err(e) => parse_spec(code.spec_bytes()) == Err::<Seq<Region>, Parse_Error>(e),
        },
        r matches Ok(v) ==> joined(code.spec_bytes(), v@.map_values(|s: Section| s@)) == code.spec_bytes(),
{
    let src = code.as_bytes();
    let n = src.len();
    proof {
        lemma_parse_lossless(src@);
    }
    let ghost s = src@;
    let mut sections: Vec<Section> = Vec::new();
    let mut pos: usize = 0;
    let mut verb: usize = 0;
    while pos < src.len()
        invariant
            s == src@,
            s == code.spec_bytes(),
            verb <= pos <= src@.len(),
            parse_spec(s) == after(sections@.map_values(|x: Section| x@), sections_from(s, pos as int, verb as int)),
        decreases src@.len() - pos,
    {
        let e = line_end_exec(src, pos);
        proof {
            lemma_next_line(s, pos as int);
        }
        let next = if e < src.len() { e + 1 } else { e };
        match line::parse(src, pos, e) {
            Err(x) => {
                return Err(x);
            },
            Ok(Line::CODE(_)) => {
                assert(sections_from(s, pos as int, verb as int) == sections_from(s, next as int, verb as int));
                pos = next;
            },
            Ok(Line::END_CODEGEN { .. }) => {
                assert(sections_from(s, pos as int, verb as int) == Err::<Seq<Region>, Parse_Error>(Parse_Error::SYNTAX(Syntax_Error { offset: pos })));
                return Err(Parse_Error::SYNTAX(Syntax_Error { offset: pos }));
            },
            Ok(Line::BEGIN_CODEGEN { marker, identifier }) => {
                let (g, n) = match read_region(src, pos, e, marker, identifier) {
                    Err(x) => {
                        return Err(x);
                    },
                    Ok(t) => t,
                };
                proof {
                    lemma_generated_after(s, pos as int, e as int, marker, identifier);
                }
                let ghost done = sections@.map_values(|x: Section| x@);
                let ghost pos0 = pos as int;
                let ghost verb0 = verb as int;
                let ghost gv = g@;
                if verb < pos {
                    sections.push(Section::HANDWRITTEN(Span { start: verb, end: pos }));
                }
                sections.push(g);
                pos = n;
                verb = n;
                proof {
                    assert(sections@.map_values(|x: Section| x@) =~= done + verbatim_until(verb0, pos0) + seq![gv]);
                    match sections_from(s, n as int, n as int) {
                        Ok(rest) => {
                            assert(done + verbatim_until(verb0, pos0) + seq![gv] + rest =~= done + (verbatim_until(verb0, pos0) + seq![gv] + rest));
                        },
                        Err(_) => {},
                    }
                }
            },
        }
    }
    let ghost done = sections@.map_values(|x: Section| x@);
    if verb < src.len() {
        sections.push(Section::HANDWRITTEN(Span { start: verb, end: src.len() }));
    }
    assert(sections@.map_values(|x: Section| x@) =~= done + verbatim_until(verb as int, src@.len() as int));
    Ok(sections)
}

fn read_region(src: &[u8], pos: usize, e: usize, marker: Marker, identifier: Span) -> (r: Result<(Section, usize), Parse_Error>)
    requires
        pos <= e <= src@.len(),
        line_spec(src@, pos as int, e as int) == Ok::<Line, Parse_Error>(Line::BEGIN_CODEGEN { marker, identifier }),
    ensures
        match r {
            Ok((g, n)) => generated_at(src@, pos as int, e as int, marker, identifier) == Ok::<(Region, int), Parse_Error>((g@, n as int)),
            Err(x) => generated_at(src@, pos as int, e as int, marker, identifier) == Err::<(Region, int), Parse_Error>(x),
        },
{
    if e >= src.len() {
        return Err(Parse_Error::SYNTAX(Syntax_Error { offset: pos }));
    }
    let (q, m2, c) = match find_region_end(src, e + 1, pos) {
        Err(x) => {
            return Err(x);
        },
        Ok(t) => t,
    };
    proof {
        lemma_region_end_after(src@, e + 1, pos as int);
        lemma_region_end_line(src@, e + 1, pos as int);
        lemma_next_line(src@, q as int);
        line::lemma_line_spec_spans(src@, q as int, line_end(src@, q as int));
    }
    let cs = vstd::slice::slice_subrange(src, c.start, c.end);
    let checksum = parse_checksum(cs);
    let qe = line_end_exec(src, q);
    let n = if qe < src.len() { qe + 1 } else { qe };
    Ok((Section::CODEGEN { identifier, code: Span { start: e + 1, end: q }, checksum, begin: marker, end: m2 }, n))
}

} // verus!
