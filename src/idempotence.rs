use vstd::prelude::*;

use crate::checksum::{blake3_of, hex_lower};
use crate::gen::{
    has_generated,
    by_ident, call_ident, ident_chars, ident_from, begin_line, close_region, end_line, gen_regions, generate_bytes, generate_spec, span_bytes, Call, Config, Gen_Error,
    Usage,
};
use crate::indentation::{
    indent_bytes, lemma_pieces_len, opened_lines, piece, pieces, spaces, with_tailing_linebreak, Indentation,
};
use crate::laws::{
    first_generated, law_disturbing_producer_is_refused, law_ignoring_producer_changes_nothing,
    law_new_checksum_length_rewrites, law_reproduced_code_changes_nothing,
    gen_index, intact, keeps_code, lemma_unchanged_regions, length_differs, only_appends, placed_code,
    some_length_differs,
};
use crate::parse_file::parser::line::{
    begin_token, close_token, end_token, first_open, has_at, is_alnum, is_hex, is_ident_char, is_letter, line_spec,
    run_end, valid_checksum, Line,
};
use crate::parse_file::parser::{
    generated_at, hex_decode, lemma_generated_after, lemma_next_line, lemma_region_end_after, lemma_region_end_line,
    lemma_run_end, lemma_sections_wf, line_end, next_line, parse_spec, region_end, region_wf, sections_from,
    verbatim_until,
};
use crate::parse_file::{Marker, Parse_Error, Region, Span};

verus! {

/// The lines from `a` on, up to `b`, are all code lines, and `b` is where the
/// last of them ends.
pub open spec fn code_run(s: Seq<u8>, a: int, b: int) -> bool
    decreases b - a via code_run_decreases
{
    if a >= b {
        a == b
    } else if a < 0 || a >= s.len() {
        false
    } else {
        &&& line_spec(s, a, line_end(s, a)) is Ok
        &&& line_spec(s, a, line_end(s, a))->Ok_0 is CODE
        &&& next_line(s, a) <= b
        &&& code_run(s, next_line(s, a), b)
    }
}

#[via_fn]
proof fn code_run_decreases(s: Seq<u8>, a: int, b: int) {
    if 0 <= a < s.len() {
        lemma_next_line(s, a);
    }
}

/// `t[c..c + n]` is `s[a..a + n]`.
pub open spec fn agree(s: Seq<u8>, a: int, t: Seq<u8>, c: int, n: int) -> bool {
    &&& 0 <= a && a + n <= s.len()
    &&& 0 <= c && c + n <= t.len()
    &&& 0 <= n
    &&& s.subrange(a, a + n) == t.subrange(c, c + n)
}

proof fn lemma_agree_at(s: Seq<u8>, a: int, t: Seq<u8>, c: int, n: int, k: int)
    requires
        agree(s, a, t, c, n),
        0 <= k < n,
    ensures
        s[a + k] == t[c + k],
{
    assert(s.subrange(a, a + n)[k] == t.subrange(c, c + n)[k]);
}

proof fn lemma_agree_sub(s: Seq<u8>, a: int, t: Seq<u8>, c: int, n: int, k: int, m: int)
    requires
        agree(s, a, t, c, n),
        0 <= k,
        0 <= m,
        k + m <= n,
    ensures
        agree(s, a + k, t, c + k, m),
{
    assert(s.subrange(a + k, a + k + m) =~= s.subrange(a, a + n).subrange(k, k + m));
    assert(t.subrange(c + k, c + k + m) =~= t.subrange(c, c + n).subrange(k, k + m));
}

proof fn lemma_first_open_shift(s: Seq<u8>, a: int, e: int, t: Seq<u8>, c: int)
    requires
        0 <= a <= e,
        agree(s, a, t, c, e - a),
    ensures
        first_open(t, c, c + (e - a)) == match first_open(s, a, e) {
            Some(p) => Some(p - a + c),
            None => None::<int>,
        },
    decreases e - a,
{
    if a + 1 < e {
        lemma_agree_at(s, a, t, c, e - a, 0);
        lemma_agree_at(s, a, t, c, e - a, 1);
        if !(s[a] == 60u8 && s[a + 1] == 60u8) {
            lemma_agree_sub(s, a, t, c, e - a, 1, e - a - 1);
            lemma_first_open_shift(s, a + 1, e, t, c + 1);
        }
    }
}

proof fn lemma_has_at_shift(s: Seq<u8>, i: int, e: int, t: Seq<u8>, d: int, tok: Seq<u8>)
    requires
        0 <= i <= e,
        agree(s, i, t, i + d, e - i),
    ensures
        has_at(t, i + d, e + d, tok) == has_at(s, i, e, tok),
{
    if i + tok.len() <= e {
        lemma_agree_sub(s, i, t, i + d, e - i, 0, tok.len() as int);
    }
}

/// A code line stays a code line wherever its bytes stand.
pub proof fn lemma_code_line_shift(s: Seq<u8>, a: int, e: int, t: Seq<u8>, d: int)
    requires
        0 <= a <= e,
        0 <= a + d,
        agree(s, a, t, a + d, e - a),
        line_spec(s, a, e) is Ok,
        line_spec(s, a, e)->Ok_0 is CODE,
    ensures
        line_spec(t, a + d, e + d) is Ok,
        line_spec(t, a + d, e + d)->Ok_0 is CODE,
{
    reveal(line_spec);
    lemma_first_open_shift(s, a, e, t, a + d);
    assert(a + d + (e - a) == e + d);
    match first_open(s, a, e) {
        None => {},
        Some(p) => {
            crate::parse_file::parser::line::lemma_first_open(s, a, e);
            lemma_agree_sub(s, a, t, a + d, e - a, p - a, e - p);
            lemma_has_at_shift(s, p, e, t, d, crate::parse_file::parser::line::begin_token());
            lemma_has_at_shift(s, p, e, t, d, crate::parse_file::parser::line::end_token());
            if p + 11 < e {
                lemma_agree_at(s, a, t, a + d, e - a, p + 11 - a);
            }
        },
    }
}

proof fn lemma_run_end_shift(s: Seq<u8>, a: int, e1: int, t: Seq<u8>, d: int, e2: int, p: spec_fn(u8) -> bool)
    requires
        0 <= a <= e1 <= s.len(),
        ({
            let r = run_end(s, a, e1, p);
            &&& agree(s, a, t, a + d, r - a + if r < e1 { 1int } else { 0int })
            &&& r + d <= e2
            &&& r == e1 ==> r + d == e2
        }),
    ensures
        run_end(t, a + d, e2, p) == run_end(s, a, e1, p) + d,
    decreases e1 - a,
{
    lemma_run_end(s, a, e1, p);
    let r = run_end(s, a, e1, p);
    if a < e1 {
        if r < e1 || a < r {
            lemma_agree_at(s, a, t, a + d, r - a + if r < e1 { 1int } else { 0int }, 0);
        }
        if p(s[a]) {
            lemma_run_end(s, a + 1, e1, p);
            let n = r - a + if r < e1 { 1int } else { 0int };
            lemma_agree_sub(s, a, t, a + d, n, 1, n - 1);
            lemma_run_end_shift(s, a + 1, e1, t, d, e2, p);
        }
    }
}

/// The line at `x` of `s` ends at the same place when its bytes stand at
/// `x + d` of `t`: its line break comes along, or it runs to the end of both.
proof fn lemma_line_end_shift(s: Seq<u8>, x: int, t: Seq<u8>, d: int, b: int)
    requires
        0 <= x < b <= s.len(),
        agree(s, x, t, x + d, b - x),
        line_end(s, x) < b || (b == s.len() && b + d == t.len()),
    ensures
        line_end(t, x + d) == line_end(s, x) + d,
{
    lemma_next_line(s, x);
    let r = line_end(s, x);
    if r < s.len() {
        lemma_agree_sub(s, x, t, x + d, b - x, 0, r - x + 1);
    } else {
        lemma_agree_sub(s, x, t, x + d, b - x, 0, r - x);
    }
    lemma_run_end_shift(s, x, s.len() as int, t, d, t.len() as int, |c: u8| c != 10u8);
}

proof fn lemma_code_run_end(s: Seq<u8>, a: int, b: int)
    requires
        code_run(s, a, b),
        a < b,
    ensures
        b <= s.len(),
        b == s.len() || s[b - 1] == 10u8,
    decreases b - a,
{
    lemma_next_line(s, a);
    let n = next_line(s, a);
    if n < b {
        lemma_code_run_end(s, n, b);
    }
}

/// Code lines stay code lines wherever their bytes stand, as long as the last
/// of them ends in a line break or runs to the end of both texts.
pub proof fn lemma_code_run_shift(s: Seq<u8>, a: int, b: int, t: Seq<u8>, d: int)
    requires
        code_run(s, a, b),
        agree(s, a, t, a + d, b - a),
        a < b && s[b - 1] != 10u8 ==> b == s.len() && b + d == t.len(),
    ensures
        code_run(t, a + d, b + d),
    decreases b - a,
{
    if a < b {
        lemma_next_line(s, a);
        lemma_code_run_end(s, a, b);
        let e = line_end(s, a);
        let n = next_line(s, a);
        lemma_line_end_shift(s, a, t, d, b);
        lemma_agree_sub(s, a, t, a + d, b - a, 0, e - a);
        lemma_code_line_shift(s, a, e, t, d);
        lemma_next_line(t, a + d);
        lemma_agree_sub(s, a, t, a + d, b - a, n - a, b - n);
        lemma_code_run_shift(s, n, b, t, d);
    }
}

/// Code lines are skipped while scanning the file.
pub proof fn lemma_skip_code_sections(s: Seq<u8>, a: int, b: int, v: int)
    requires
        code_run(s, a, b),
    ensures
        sections_from(s, a, v) == sections_from(s, b, v),
    decreases b - a,
{
    if a < b {
        lemma_next_line(s, a);
        lemma_skip_code_sections(s, next_line(s, a), b, v);
    }
}

/// Code lines are skipped while scanning a region.
pub proof fn lemma_skip_code_region(s: Seq<u8>, a: int, b: int, beg: int)
    requires
        code_run(s, a, b),
    ensures
        region_end(s, a, beg) == region_end(s, b, beg),
    decreases b - a,
{
    if a < b {
        lemma_next_line(s, a);
        lemma_skip_code_region(s, next_line(s, a), b, beg);
    }
}

proof fn lemma_code_run_extend(s: Seq<u8>, a: int, b: int)
    requires
        code_run(s, a, b),
        0 <= b < s.len(),
        line_spec(s, b, line_end(s, b)) is Ok,
        line_spec(s, b, line_end(s, b))->Ok_0 is CODE,
    ensures
        code_run(s, a, next_line(s, b)),
    decreases b - a,
{
    lemma_next_line(s, b);
    let n = next_line(s, b);
    if a < b {
        lemma_next_line(s, a);
        lemma_code_run_extend(s, next_line(s, a), b);
    } else {
        assert(code_run(s, n, n));
    }
}

proof fn lemma_region_end_code(s: Seq<u8>, q: int, beg: int)
    requires
        0 <= q,
    ensures
        region_end(s, q, beg) matches Ok((e, m, c)) ==> code_run(s, q, e),
    decreases s.len() - q,
{
    if 0 <= q < s.len() {
        lemma_next_line(s, q);
        let n = next_line(s, q);
        lemma_region_end_code(s, n, beg);
        lemma_region_end_after(s, n, beg);
    }
}

/// What parsing tells of a region of `src`: a verbatim region is a non-empty
/// run of code lines; a generated region is a begin marker line, code lines
/// and an end marker line whose checksum field it holds decoded.
pub open spec fn region_facts(src: Seq<u8>, r: Region) -> bool {
    match r {
        Region::Verbatim(s) => s.start < s.end && code_run(src, s.start as int, s.end as int),
        Region::Generated { identifier, code, checksum, begin, end } => {
            let b = begin.before_marker.start - begin.indentation.0;
            let e = begin.after_marker.end as int;
            let q = code.end as int;
            &&& 0 <= b <= e < src.len()
            &&& line_end(src, b) == e
            &&& line_spec(src, b, e) == Ok::<Line, Parse_Error>(Line::BEGIN_CODEGEN { marker: begin, identifier })
            &&& code.start == e + 1
            &&& code_run(src, code.start as int, q)
            &&& q < src.len()
            &&& exists|c: Span|
                #[trigger] line_spec(src, q, line_end(src, q)) == Ok::<Line, Parse_Error>(Line::END_CODEGEN { marker: end, checksum: c })
                && checksum == hex_decode(src.subrange(c.start as int, c.end as int))
        },
    }
}

/// A verbatim region is never followed by another one.
pub open spec fn no_adjacent_verbatim(rs: Seq<Region>) -> bool {
    forall|k: int| 0 <= k < rs.len() - 1 && (#[trigger] rs[k]) is Verbatim ==> {
        &&& rs[k + 1] is Generated
        &&& rs[k + 1]->Generated_begin.before_marker.start - rs[k + 1]->Generated_begin.indentation.0
            == rs[k]->Verbatim_0.end
    }
}

proof fn lemma_sections_facts(src: Seq<u8>, pos: int, verb: int)
    requires
        0 <= verb <= pos <= src.len(),
        src.len() <= usize::MAX,
        code_run(src, verb, pos),
    ensures
        sections_from(src, pos, verb) matches Ok(rs) ==> {
            &&& forall|k: int| 0 <= k < rs.len() ==> region_facts(src, #[trigger] rs[k])
            &&& no_adjacent_verbatim(rs)
        },
    decreases src.len() - pos,
{
    if pos >= src.len() {
        if verb < src.len() {
            assert(region_facts(src, verbatim_until(verb, src.len() as int)[0]));
        }
    } else {
        lemma_next_line(src, pos);
        let e = line_end(src, pos);
        crate::parse_file::parser::line::lemma_line_spec_spans(src, pos, e);
        match line_spec(src, pos, e) {
            Ok(Line::CODE(_)) => {
                lemma_code_run_extend(src, verb, pos);
                lemma_sections_facts(src, next_line(src, pos), verb);
            },
            Ok(Line::BEGIN_CODEGEN { marker, identifier }) => {
                lemma_generated_after(src, pos, e, marker, identifier);
                if let Ok((g, n)) = generated_at(src, pos, e, marker, identifier) {
                    lemma_sections_facts(src, n, n);
                    lemma_region_end_after(src, e + 1, pos);
                    lemma_region_end_line(src, e + 1, pos);
                    lemma_region_end_code(src, e + 1, pos);
                    if let Ok((q, m2, c)) = region_end(src, e + 1, pos) {
                        lemma_next_line(src, q);
                        assert(region_facts(src, g));
                    }
                    if let Ok(rest) = sections_from(src, n, n) {
                        let v = verbatim_until(verb, pos);
                        let all = v + seq![g] + rest;
                        assert forall|k: int| 0 <= k < all.len() implies region_facts(src, #[trigger] all[k]) by {
                            if k >= v.len() + 1 {
                                assert(all[k] == rest[k - v.len() - 1]);
                            }
                        }
                        assert forall|k: int| 0 <= k < all.len() - 1 && (#[trigger] all[k]) is Verbatim implies {
                            &&& all[k + 1] is Generated
                            &&& all[k + 1]->Generated_begin.before_marker.start - all[k + 1]->Generated_begin.indentation.0
                                == all[k]->Verbatim_0.end
                        } by {
                            if k >= v.len() + 1 {
                                assert(all[k] == rest[k - v.len() - 1]);
                                assert(all[k + 1] == rest[k + 1 - v.len() - 1]);
                            }
                        }
                    }
                }
            },
            _ => {},
        }
    }
}

proof fn lemma_run_end_exact(s: Seq<u8>, a: int, r: int, e: int, p: spec_fn(u8) -> bool)
    requires
        a <= r <= e,
        forall|k: int| a <= k < r ==> p(#[trigger] s[k]),
        r < e ==> !p(s[r]),
    ensures
        run_end(s, a, e, p) == r,
    decreases r - a,
{
    if a < r {
        lemma_run_end_exact(s, a + 1, r, e, p);
    }
}

proof fn lemma_first_open_prefix(s: Seq<u8>, a: int, e1: int, t: Seq<u8>, c: int, e2: int)
    requires
        first_open(s, a, e1) matches Some(p) && agree(s, a, t, c, p + 2 - a) && c + (p + 2 - a) <= e2,
        0 <= a,
    ensures
        first_open(t, c, e2) == Some(c + (first_open(s, a, e1)->Some_0 - a)),
    decreases e1 - a,
{
    let p = first_open(s, a, e1)->Some_0;
    crate::parse_file::parser::line::lemma_first_open(s, a, e1);
    lemma_agree_at(s, a, t, c, p + 2 - a, 0);
    lemma_agree_at(s, a, t, c, p + 2 - a, 1);
    if !(s[a] == 60u8 && s[a + 1] == 60u8) {
        lemma_agree_sub(s, a, t, c, p + 2 - a, 1, p + 1 - a);
        lemma_first_open_prefix(s, a + 1, e1, t, c + 1, e2);
    }
}

proof fn lemma_begin_line_bytes(src: Seq<u8>, begin: Marker, identifier: Span)
    requires
        begin.before_marker.start <= begin.before_marker.end <= src.len(),
        identifier.start <= identifier.end <= src.len(),
        begin.after_marker.start <= begin.after_marker.end <= src.len(),
    ensures
        ({
            let bl = begin_line(src, begin, identifier);
            let ind = begin.indentation.0 as int;
            let bs = begin.before_marker.start as int;
            let nb = begin.before_marker.end - begin.before_marker.start;
            let ni = identifier.end - identifier.start;
            let na = begin.after_marker.end - begin.after_marker.start;
            let t = ind + nb;
            let i2 = t + 11 + ni;
            &&& bl.len() == i2 + 3 + na + 1
            &&& forall|k: int| 0 <= k < ind ==> #[trigger] bl[k] == 32u8
            &&& forall|k: int| ind <= k < t ==> #[trigger] bl[k] == src[bs + (k - ind)]
            &&& forall|k: int| t <= k < t + 11 ==> #[trigger] bl[k] == begin_token()[k - t]
            &&& forall|k: int| t + 11 <= k < i2 ==> #[trigger] bl[k] == src[identifier.start + (k - t - 11)]
            &&& bl[i2] == 32u8 && bl[i2 + 1] == 62u8 && bl[i2 + 2] == 62u8
            &&& forall|k: int| i2 + 3 <= k < i2 + 3 + na ==> #[trigger] bl[k] == src[begin.after_marker.start + (k - i2 - 3)]
            &&& bl[i2 + 3 + na] == 10u8
        }),
{
}

proof fn lemma_begin_line_spec(o: Seq<u8>, pos: int, e2: int, ind: int, pt: int, q2: int, qe2: int)
    requires
        0 <= pos <= pos + ind <= pt,
        pt + 11 == q2,
        q2 < qe2,
        qe2 + 3 <= e2,
        e2 <= o.len(),
        o.len() <= usize::MAX,
        first_open(o, pos, e2) == Some(pt),
        run_end(o, pos, pt, |c: u8| c == 32u8) == pos + ind,
        has_at(o, pt, e2, begin_token()),
        run_end(o, q2, e2, |c: u8| is_ident_char(c)) == qe2,
        is_letter(o[q2]),
        o[qe2] == 32u8,
        has_at(o, qe2 + 1, e2, close_token()),
    ensures
        line_spec(o, pos, e2) == Ok::<Line, Parse_Error>(Line::BEGIN_CODEGEN {
            marker: Marker {
                indentation: Indentation(ind as usize),
                before_marker: Span { start: (pos + ind) as usize, end: pt as usize },
                after_marker: Span { start: (qe2 + 3) as usize, end: e2 as usize },
            },
            identifier: Span { start: q2 as usize, end: qe2 as usize },
        }),
{
    reveal(line_spec);
}

/// Where the begin marker line `b..e` of `src` is written out at `pos` of `o`,
/// it reads back as a begin marker line with the same indentation, before-text,
/// identifier and after-text.
pub proof fn lemma_begin_line_reads_back(src: Seq<u8>, b: int, e: int, begin: Marker, identifier: Span, o: Seq<u8>, pos: int)
    requires
        src.len() <= usize::MAX,
        o.len() <= usize::MAX,
        0 <= b <= e < src.len(),
        line_end(src, b) == e,
        line_spec(src, b, e) == Ok::<Line, Parse_Error>(Line::BEGIN_CODEGEN { marker: begin, identifier }),
        0 <= pos,
        pos + begin_line(src, begin, identifier).len() <= o.len(),
        o.subrange(pos, pos + begin_line(src, begin, identifier).len()) == begin_line(src, begin, identifier),
    ensures
        ({
            let ind = begin.indentation.0 as int;
            let nb = begin.before_marker.end - begin.before_marker.start;
            let ni = identifier.end - identifier.start;
            let na = begin.after_marker.end - begin.after_marker.start;
            let e2 = pos + begin_line(src, begin, identifier).len() - 1;
            let pt = pos + ind + nb;
            &&& line_end(o, pos) == e2
            &&& line_spec(o, pos, e2) == Ok::<Line, Parse_Error>(Line::BEGIN_CODEGEN {
                marker: Marker {
                    indentation: begin.indentation,
                    before_marker: Span { start: (pos + ind) as usize, end: pt as usize },
                    after_marker: Span { start: (e2 - na) as usize, end: e2 as usize },
                },
                identifier: Span { start: (pt + 11) as usize, end: (pt + 11 + ni) as usize },
            })
        }),
{
    crate::parse_file::parser::line::lemma_line_spec_spans(src, b, e);
    lemma_next_line(src, b);
    let bl = begin_line(src, begin, identifier);
    lemma_begin_line_bytes(src, begin, identifier);
    let ind = begin.indentation.0 as int;
    let bs = begin.before_marker.start as int;
    let p = begin.before_marker.end as int;
    let q = identifier.start as int;
    let nb = p - bs;
    let ni = identifier.end - q;
    let na = begin.after_marker.end - begin.after_marker.start;
    let pt = pos + ind + nb;
    let q2 = pt + 11;
    let qe2 = q2 + ni;
    let e2 = qe2 + 3 + na;
    assert(e2 == pos + bl.len() - 1);
    lemma_begin_source_facts(src, b, e, begin, identifier);
    assert forall|k: int| 0 <= k < bl.len() implies o[pos + k] == #[trigger] bl[k] by {
        assert(o.subrange(pos, pos + bl.len())[k] == bl[k]);
    }
    assert(agree(src, b, o, pos, p + 2 - b)) by {
        assert forall|k: int| 0 <= k < p + 2 - b implies #[trigger] src.subrange(b, p + 2)[k] == o.subrange(pos, pos + (p + 2 - b))[k] by {
            assert(o[pos + k] == bl[k]);
            if k >= ind + nb {
                assert(bl[k] == begin_token()[k - ind - nb]);
            }
        }
        assert(src.subrange(b, p + 2) =~= o.subrange(pos, pos + (p + 2 - b)));
    }
    assert forall|k: int| pos <= k < e2 implies #[trigger] o[k] != 10u8 by {
        assert(o[pos + (k - pos)] == bl[k - pos]);
    }
    assert(o[e2] == 10u8) by {
        assert(o[pos + (e2 - pos)] == bl[e2 - pos]);
    }
    lemma_run_end_exact(o, pos, e2, o.len() as int, |c: u8| c != 10u8);
    lemma_first_open_prefix(src, b, e, o, pos, e2);
    assert forall|k: int| pos <= k < pos + ind implies #[trigger] o[k] == 32u8 by {
        assert(o[pos + (k - pos)] == bl[k - pos]);
    }
    if pos + ind < pt {
        assert(o[pos + ind] == src[bs]) by {
            assert(o[pos + ind] == bl[ind]);
        }
    }
    lemma_run_end_exact(o, pos, pos + ind, pt, |c: u8| c == 32u8);
    assert(o.subrange(pt, pt + 11) =~= begin_token()) by {
        assert forall|k: int| 0 <= k < 11 implies #[trigger] o.subrange(pt, pt + 11)[k] == begin_token()[k] by {
            assert(o[pos + (ind + nb + k)] == bl[ind + nb + k]);
        }
    }
    assert forall|k: int| q2 <= k < qe2 implies is_ident_char(#[trigger] o[k]) by {
        assert(o[pos + (k - pos)] == bl[k - pos]);
    }
    assert(o[qe2] == 32u8) by {
        assert(o[pos + (qe2 - pos)] == bl[qe2 - pos]);
    }
    lemma_run_end_exact(o, q2, qe2, e2, |c: u8| is_ident_char(c));
    assert(o[q2] == src[q]) by {
        assert(o[pos + (q2 - pos)] == bl[q2 - pos]);
    }
    assert(o.subrange(qe2 + 1, qe2 + 3) =~= close_token()) by {
        assert(o[pos + (qe2 + 1 - pos)] == bl[qe2 + 1 - pos]);
        assert(o[pos + (qe2 + 2 - pos)] == bl[qe2 + 2 - pos]);
    }
    lemma_begin_line_spec(o, pos, e2, ind, pt, q2, qe2);
}

/// What the classification of a begin marker line tells of its bytes.
proof fn lemma_begin_source_facts(src: Seq<u8>, b: int, e: int, begin: Marker, identifier: Span)
    requires
        src.len() <= usize::MAX,
        0 <= b <= e < src.len(),
        line_spec(src, b, e) == Ok::<Line, Parse_Error>(Line::BEGIN_CODEGEN { marker: begin, identifier }),
    ensures
        first_open(src, b, e) == Some(begin.before_marker.end as int),
        identifier.start == begin.before_marker.end + 11,
        has_at(src, begin.before_marker.end as int, e, begin_token()),
        begin.before_marker.start < begin.before_marker.end ==> src[begin.before_marker.start as int] != 32u8,
{
    reveal(line_spec);
    crate::parse_file::parser::line::lemma_first_open(src, b, e);
    let p = first_open(src, b, e)->Some_0;
    lemma_run_end(src, b, p, |c: u8| c == 32u8);
}

proof fn lemma_first_open_later(s: Seq<u8>, a: int, a2: int, e: int)
    requires
        first_open(s, a, e) matches Some(p) && a <= a2 <= p,
    ensures
        first_open(s, a2, e) == first_open(s, a, e),
    decreases a2 - a,
{
    if a < a2 {
        lemma_first_open_later(s, a + 1, a2, e);
    }
}

proof fn lemma_first_open_skip(t: Seq<u8>, c: int, c2: int, e: int)
    requires
        c <= c2,
        forall|k: int| c <= k < c2 ==> #[trigger] t[k] != 60u8,
    ensures
        first_open(t, c, e) == first_open(t, c2, e),
    decreases c2 - c,
{
    if c < c2 {
        lemma_first_open_skip(t, c + 1, c2, e);
    }
}

proof fn lemma_end_line_bytes(src: Seq<u8>, end: Marker, h: Seq<u8>)
    requires
        end.before_marker.start <= end.before_marker.end <= src.len(),
        end.after_marker.start <= end.after_marker.end <= src.len(),
    ensures
        ({
            let el = end_line(src, end, h);
            let ind = end.indentation.0 as int;
            let bs = end.before_marker.start as int;
            let nb = end.before_marker.end - end.before_marker.start;
            let na = end.after_marker.end - end.after_marker.start;
            let t = ind + nb;
            let nh = if h.len() > 0 { h.len() + 1 } else { 0 };
            let i2 = t + 12 + nh;
            &&& el.len() == i2 + 2 + na + 1
            &&& forall|k: int| 0 <= k < ind ==> #[trigger] el[k] == 32u8
            &&& forall|k: int| ind <= k < t ==> #[trigger] el[k] == src[bs + (k - ind)]
            &&& forall|k: int| t <= k < t + 11 ==> #[trigger] el[k] == end_token()[k - t]
            &&& el[t + 11] == 32u8
            &&& forall|k: int| t + 12 <= k < t + 12 + h.len() ==> #[trigger] el[k] == h[k - t - 12]
            &&& h.len() > 0 ==> el[t + 12 + h.len()] == 32u8
            &&& el[i2] == 62u8 && el[i2 + 1] == 62u8
            &&& forall|k: int| i2 + 2 <= k < i2 + 2 + na ==> #[trigger] el[k] == src[end.after_marker.start + (k - i2 - 2)]
            &&& el[i2 + 2 + na] == 10u8
        }),
{
}

proof fn lemma_end_line_spec(o: Seq<u8>, pos: int, e3: int, ind: int, pt: int, ce: int, r: int)
    requires
        0 <= pos <= pos + ind <= pt,
        pt + 12 <= ce,
        r + 2 <= e3,
        e3 <= o.len(),
        o.len() <= usize::MAX,
        first_open(o, pos, e3) == Some(pt),
        run_end(o, pos, pt, |c: u8| c == 32u8) == pos + ind,
        !has_at(o, pt, e3, begin_token()),
        has_at(o, pt, e3, end_token()),
        o[pt + 11] == 32u8,
        run_end(o, pt + 12, e3, |c: u8| is_alnum(c)) == ce,
        r == if ce < e3 && o[ce] == 32u8 { ce + 1 } else { ce },
        has_at(o, r, e3, close_token()),
        valid_checksum(o, Span { start: (pt + 12) as usize, end: ce as usize }),
    ensures
        line_spec(o, pos, e3) == Ok::<Line, Parse_Error>(Line::END_CODEGEN {
            marker: Marker {
                indentation: Indentation(ind as usize),
                before_marker: Span { start: (pos + ind) as usize, end: pt as usize },
                after_marker: Span { start: (r + 2) as usize, end: e3 as usize },
            },
            checksum: Span { start: (pt + 12) as usize, end: ce as usize },
        }),
{
    reveal(line_spec);
}

/// What the classification of an end marker line tells of its bytes.
proof fn lemma_end_source_facts(src: Seq<u8>, q: int, e: int, end: Marker, c: Span)
    requires
        src.len() <= usize::MAX,
        0 <= q <= e <= src.len(),
        line_spec(src, q, e) == Ok::<Line, Parse_Error>(Line::END_CODEGEN { marker: end, checksum: c }),
    ensures
        first_open(src, end.before_marker.start as int, e) == Some(end.before_marker.end as int),
        has_at(src, end.before_marker.end as int, e, end_token()),
        end.before_marker.start < end.before_marker.end ==> src[end.before_marker.start as int] != 32u8,
        q <= end.before_marker.start <= end.before_marker.end,
{
    reveal(line_spec);
    crate::parse_file::parser::line::lemma_first_open(src, q, e);
    let p = first_open(src, q, e)->Some_0;
    lemma_run_end(src, q, p, |b: u8| b == 32u8);
    lemma_first_open_later(src, q, end.before_marker.start as int, e);
}

/// Where the end marker line of a region is written out at `pos` of `o` with
/// the checksum field `h`, two hex digits for each of at most 32 bytes, it
/// reads back as an end marker line with that field.
#[verifier::spinoff_prover]
#[verifier::rlimit(100)]
pub proof fn lemma_end_line_reads_back(src: Seq<u8>, q: int, e: int, end: Marker, c: Span, h: Seq<u8>, o: Seq<u8>, pos: int)
    requires
        src.len() <= usize::MAX,
        o.len() <= usize::MAX,
        0 <= q < src.len(),
        q <= e <= src.len(),
        line_end(src, q) == e,
        line_spec(src, q, e) == Ok::<Line, Parse_Error>(Line::END_CODEGEN { marker: end, checksum: c }),
        h.len() % 2 == 0,
        h.len() <= 64,
        forall|k: int| 0 <= k < h.len() ==> is_hex(#[trigger] h[k]) && is_alnum(h[k]),
        0 <= pos,
        pos + end_line(src, end, h).len() <= o.len(),
        o.subrange(pos, pos + end_line(src, end, h).len()) == end_line(src, end, h),
    ensures
        ({
            let ind = end.indentation.0 as int;
            let nb = end.before_marker.end - end.before_marker.start;
            let na = end.after_marker.end - end.after_marker.start;
            let e3 = pos + end_line(src, end, h).len() - 1;
            let pt = pos + ind + nb;
            &&& line_end(o, pos) == e3
            &&& line_spec(o, pos, e3) == Ok::<Line, Parse_Error>(Line::END_CODEGEN {
                marker: Marker {
                    indentation: end.indentation,
                    before_marker: Span { start: (pos + ind) as usize, end: pt as usize },
                    after_marker: Span { start: (e3 - na) as usize, end: e3 as usize },
                },
                checksum: Span { start: (pt + 12) as usize, end: (pt + 12 + h.len()) as usize },
            })
            &&& o.subrange(pt + 12, pt + 12 + h.len()) == h
        }),
{
    crate::parse_file::parser::line::lemma_line_spec_spans(src, q, e);
    lemma_next_line(src, q);
    lemma_end_source_facts(src, q, e, end, c);
    let el = end_line(src, end, h);
    lemma_end_line_bytes(src, end, h);
    let ind = end.indentation.0 as int;
    let bs = end.before_marker.start as int;
    let p = end.before_marker.end as int;
    let nb = p - bs;
    let na = end.after_marker.end - end.after_marker.start;
    let pt = pos + ind + nb;
    let cs = pt + 12;
    let ce = cs + h.len();
    let nh = if h.len() > 0 { h.len() + 1 } else { 0 };
    let i2 = pos + ind + nb + 12 + nh;
    let e3 = i2 + 2 + na;
    let r = if h.len() > 0 { ce + 1 } else { ce };
    assert(e3 == pos + el.len() - 1);
    assert forall|k: int| 0 <= k < el.len() implies o[pos + k] == #[trigger] el[k] by {
        assert(o.subrange(pos, pos + el.len())[k] == el[k]);
    }
    assert(src[p] == 60u8 && src[p + 1] == 60u8) by {
        assert(src.subrange(p, p + 11)[0] == end_token()[0]);
        assert(src.subrange(p, p + 11)[1] == end_token()[1]);
    }
    assert(agree(src, bs, o, pos + ind, p + 2 - bs)) by {
        assert forall|k: int| 0 <= k < p + 2 - bs implies #[trigger] src.subrange(bs, p + 2)[k] == o.subrange(pos + ind, pos + ind + (p + 2 - bs))[k] by {
            assert(o[pos + (ind + k)] == el[ind + k]);
            if k >= nb {
                assert(el[ind + k] == end_token()[k - nb]);
            }
        }
        assert(src.subrange(bs, p + 2) =~= o.subrange(pos + ind, pos + ind + (p + 2 - bs)));
    }
    assert forall|k: int| pos <= k < e3 implies #[trigger] o[k] != 10u8 by {
        assert(o[pos + (k - pos)] == el[k - pos]);
        let i = k - pos;
        if ind + nb + 12 <= i < ind + nb + 12 + h.len() {
            assert(el[i] == h[i - ind - nb - 12]);
        }
    }
    assert(o[e3] == 10u8) by {
        assert(o[pos + (e3 - pos)] == el[e3 - pos]);
    }
    lemma_run_end_exact(o, pos, e3, o.len() as int, |b: u8| b != 10u8);
    assert forall|k: int| pos <= k < pos + ind implies #[trigger] o[k] == 32u8 by {
        assert(o[pos + (k - pos)] == el[k - pos]);
    }
    lemma_first_open_skip(o, pos, pos + ind, e3);
    lemma_first_open_prefix(src, bs, e, o, pos + ind, e3);
    if pos + ind < pt {
        assert(o[pos + ind] == src[bs]) by {
            assert(o[pos + ind] == el[ind]);
        }
    }
    lemma_run_end_exact(o, pos, pos + ind, pt, |b: u8| b == 32u8);
    assert(o.subrange(pt, pt + 11) =~= end_token()) by {
        assert forall|k: int| 0 <= k < 11 implies #[trigger] o.subrange(pt, pt + 11)[k] == end_token()[k] by {
            assert(o[pos + (ind + nb + k)] == el[ind + nb + k]);
        }
    }
    assert(!has_at(o, pt, e3, begin_token())) by {
        assert(o.subrange(pt, pt + 11)[3] != begin_token()[3]);
    }
    assert(o[pt + 11] == 32u8) by {
        assert(o[pos + (ind + nb + 11)] == el[ind + nb + 11]);
    }
    assert forall|k: int| cs <= k < ce implies #[trigger] o[k] == h[k - cs] by {
        assert(o[pos + (k - pos)] == el[k - pos]);
    }
    assert(o.subrange(cs, ce) =~= h);
    if h.len() > 0 {
        assert(o[ce] == 32u8) by {
            assert(o[pos + (ce - pos)] == el[ce - pos]);
        }
    } else {
        assert(o[ce] == 62u8) by {
            assert(o[pos + (ce - pos)] == el[ce - pos]);
        }
    }
    assert forall|k: int| cs <= k < ce implies is_alnum(#[trigger] o[k]) by {
        assert(o[k] == h[k - cs]);
    }
    lemma_run_end_exact(o, cs, ce, e3, |b: u8| is_alnum(b));
    assert(o.subrange(r, r + 2) =~= close_token()) by {
        assert(o[pos + (r - pos)] == el[r - pos]);
        assert(o[pos + (r + 1 - pos)] == el[r + 1 - pos]);
    }
    assert(valid_checksum(o, Span { start: cs as usize, end: ce as usize })) by {
        assert forall|k: int| cs <= k < ce implies is_hex(#[trigger] o[k]) by {
            assert(o[k] == h[k - cs]);
        }
    }
    lemma_end_line_spec(o, pos, e3, ind, pt, ce, r);
}

/// Text ending in a line break still does once indented.
proof fn lemma_indented_last(t: Seq<u8>, n: nat)
    requires
        t.len() > 0 ==> t.last() == 10u8,
    ensures
        indent_bytes(t, n).len() >= t.len(),
        t.len() > 0 ==> indent_bytes(t, n).last() == 10u8,
        t.len() == 0 ==> indent_bytes(t, n).len() == 0,
{
    lemma_pieces_len(t, 0, t.len() as int, 10u8, spaces(n));
    if t.len() > 0 {
        let l = t.len() as int;
        assert(pieces(t, 0, l, 10u8, spaces(n)) == pieces(t, 0, l - 1, 10u8, spaces(n)) + piece(t, l - 1, 10u8, spaces(n)));
        assert(piece(t, l - 1, 10u8, spaces(n)) == seq![10u8]);
    }
    assert(opened_lines(t, 0, t.len() as int, 10u8) * n >= 0) by (nonlinear_arith);
}

/// The output of a region whose producer appended `w` and returned `Ok(u)`.
proof fn lemma_close_appending(src: Seq<u8>, r: Region, cfg: Config, before: Seq<u8>, digest: [u8; 32], u: Usage, w: Seq<u8>)
    requires
        r is Generated,
    ensures
        close_region(src, r, cfg, before.len() as int, blake3_of(before), digest, Ok(u), before + w) matches Ok((o, c)) ==> {
            let body = placed_code(src, r, u, w);
            let h = hex_lower(blake3_of(body)@.subrange(0, cfg.checksum_bytes_to_store as int));
            &&& o == before + body + end_line(src, r->Generated_end, h)
            &&& c == (cfg.checksum_bytes_to_store != r->Generated_checksum.len() || blake3_of(body)@ != digest@)
        },
{
    let after = before + w;
    assert(after.subrange(0, before.len() as int) =~= before);
    assert(after.subrange(before.len() as int, after.len() as int) =~= w);
}

/// Every call `j` of `p` returns `u(j)` and appends `w(j)` to the buffer.
pub open spec fn appender(p: spec_fn(nat, Seq<u8>) -> Call, u: spec_fn(nat) -> Usage, w: spec_fn(nat) -> Seq<u8>) -> bool {
    forall|j: nat, b: Seq<u8>| #[trigger] p(j, b) == (Ok::<Usage, std::fmt::Error>(u(j)), b + w(j))
}

/// Where the producer's text replaces a region's code, that text, ending in a
/// line break and indented, holds code lines only.
pub open spec fn places_code_lines(rs: Seq<Region>, u: spec_fn(nat) -> Usage, w: spec_fn(nat) -> Seq<u8>) -> bool {
    forall|k: int| 0 <= k < rs.len() && (#[trigger] rs[k]) is Generated && u(gen_index(rs, k)) == Usage::USE ==> {
        let t = indent_bytes(with_tailing_linebreak(w(gen_index(rs, k)), 10u8), rs[k]->Generated_begin.indentation.0 as nat);
        code_run(t, 0, t.len() as int)
    }
}

proof fn lemma_gen_prefix(
    src: Seq<u8>,
    rs: Seq<Region>,
    cfg: Config,
    p: spec_fn(nat, Seq<u8>) -> Call,
    u: spec_fn(nat) -> Usage,
    w: spec_fn(nat) -> Seq<u8>,
    i: int,
    j: nat,
    out: Seq<u8>,
    ch: bool,
)
    requires
        appender(p, u, w),
    ensures
        gen_regions(src, rs, cfg, p, i, j, out, ch) matches Ok((o, c)) ==> out.len() <= o.len() && o.subrange(0, out.len() as int) == out,
    decreases rs.len() - i,
{
    if 0 <= i < rs.len() {
        match rs[i] {
            Region::Verbatim(sp) => {
                let o1 = out + span_bytes(src, sp);
                lemma_gen_prefix(src, rs, cfg, p, u, w, i + 1, j, o1, ch);
                if let Ok((o, c)) = gen_regions(src, rs, cfg, p, i, j, out, ch) {
                    assert(o.subrange(0, out.len() as int) =~= o.subrange(0, o1.len() as int).subrange(0, out.len() as int));
                    assert(o1.subrange(0, out.len() as int) =~= out);
                }
            },
            Region::Generated { identifier, code, checksum, begin, end } => {
                let digest = blake3_of(span_bytes(src, code));
                let before = out + begin_line(src, begin, identifier);
                assert(p(j, before) == (Ok::<Usage, std::fmt::Error>(u(j)), before + w(j)));
                lemma_close_appending(src, rs[i], cfg, before, digest, u(j), w(j));
                if let Ok((o1, c1)) = close_region(src, rs[i], cfg, before.len() as int, blake3_of(before), digest, Ok(u(j)), before + w(j)) {
                    lemma_gen_prefix(src, rs, cfg, p, u, w, i + 1, j + 1, o1, ch || c1);
                    if let Ok((o, c)) = gen_regions(src, rs, cfg, p, i, j, out, ch) {
                        assert(o.subrange(0, out.len() as int) =~= o.subrange(0, o1.len() as int).subrange(0, out.len() as int));
                        assert(o1.subrange(0, out.len() as int) =~= out);
                    }
                }
            },
        }
    }
}

/// A region of `src` and the region `t` that stands for it when the output `o`
/// is parsed again.
pub open spec fn reparsed(src: Seq<u8>, o: Seq<u8>, cfg: Config, r: Region, t: Region, u: Usage, w: Seq<u8>) -> bool {
    match r {
        Region::Verbatim(_) => t is Verbatim,
        Region::Generated { begin, identifier, .. } => {
            &&& t is Generated
            &&& ident_chars(o, t->Generated_identifier) == ident_chars(src, identifier)
            &&& intact(o, t)
            &&& !length_differs(cfg, t)
            &&& t->Generated_begin.indentation == begin.indentation
            &&& u == Usage::USE ==> indent_bytes(with_tailing_linebreak(w, 10u8), begin.indentation.0 as nat)
                == span_bytes(o, t->Generated_code)
        },
    }
}

#[verifier::spinoff_prover]
#[verifier::rlimit(100)]
proof fn lemma_reparse_generated(src: Seq<u8>, r: Region, cfg: Config, u: Usage, w: Seq<u8>, o: Seq<u8>, pos: int)
    requires
        src.len() <= usize::MAX,
        o.len() <= usize::MAX,
        cfg.checksum_bytes_to_store <= 32,
        r is Generated,
        region_facts(src, r),
        region_wf(src, r),
        u == Usage::USE ==> ({
            let t = indent_bytes(with_tailing_linebreak(w, 10u8), r->Generated_begin.indentation.0 as nat);
            code_run(t, 0, t.len() as int)
        }),
        0 <= pos,
        ({
            let bl = begin_line(src, r->Generated_begin, r->Generated_identifier);
            let body = placed_code(src, r, u, w);
            let h = hex_lower(blake3_of(body)@.subrange(0, cfg.checksum_bytes_to_store as int));
            let el = end_line(src, r->Generated_end, h);
            &&& pos + bl.len() + body.len() + el.len() <= o.len()
            &&& o.subrange(pos, pos + bl.len() + body.len() + el.len()) == bl + body + el
        }),
    ensures
        ({
            let bl = begin_line(src, r->Generated_begin, r->Generated_identifier);
            let body = placed_code(src, r, u, w);
            let h = hex_lower(blake3_of(body)@.subrange(0, cfg.checksum_bytes_to_store as int));
            let el = end_line(src, r->Generated_end, h);
            let e2 = pos + bl.len() - 1;
            &&& line_end(o, pos) == e2
            &&& e2 < o.len()
            &&& line_spec(o, pos, e2) matches Ok(Line::BEGIN_CODEGEN { marker, identifier })
                && generated_at(o, pos, e2, marker, identifier) matches Ok((g, n))
                && n == pos + bl.len() + body.len() + el.len()
                && reparsed(src, o, cfg, r, g, u, w)
        }),
{
    let begin = r->Generated_begin;
    let end = r->Generated_end;
    let identifier = r->Generated_identifier;
    let code = r->Generated_code;
    let bl = begin_line(src, begin, identifier);
    let body = placed_code(src, r, u, w);
    let n = cfg.checksum_bytes_to_store as int;
    let digest = blake3_of(body);
    let h = hex_lower(digest@.subrange(0, n));
    let el = end_line(src, end, h);
    let whole = bl + body + el;
    let sb = pos + bl.len();
    let q2 = sb + body.len();
    assert(o.subrange(pos, pos + bl.len()) =~= bl) by {
        assert(o.subrange(pos, pos + bl.len()) =~= o.subrange(pos, pos + whole.len()).subrange(0, bl.len() as int));
        assert(whole.subrange(0, bl.len() as int) =~= bl);
    }
    assert(o.subrange(sb, q2) =~= body) by {
        assert(o.subrange(sb, q2) =~= o.subrange(pos, pos + whole.len()).subrange(bl.len() as int, (bl.len() + body.len()) as int));
        assert(whole.subrange(bl.len() as int, (bl.len() + body.len()) as int) =~= body);
    }
    assert(o.subrange(q2, q2 + el.len()) =~= el) by {
        assert(o.subrange(q2, q2 + el.len()) =~= o.subrange(pos, pos + whole.len()).subrange((bl.len() + body.len()) as int, whole.len() as int));
        assert(whole.subrange((bl.len() + body.len()) as int, whole.len() as int) =~= el);
    }
    let b = begin.before_marker.start - begin.indentation.0;
    let e = begin.after_marker.end as int;
    lemma_begin_line_reads_back(src, b, e, begin, identifier, o, pos);
    let e2 = pos + bl.len() - 1;
    let ind = begin.indentation.0 as int;
    let pt = pos + ind + (begin.before_marker.end - begin.before_marker.start);
    let m2 = Marker {
        indentation: begin.indentation,
        before_marker: Span { start: (pos + ind) as usize, end: pt as usize },
        after_marker: Span { start: (e2 - (begin.after_marker.end - begin.after_marker.start)) as usize, end: e2 as usize },
    };
    let i2 = Span { start: (pt + 11) as usize, end: (pt + 11 + (identifier.end - identifier.start)) as usize };
    // the body holds code lines only
    if u == Usage::USE {
        let t = with_tailing_linebreak(w, 10u8);
        lemma_indented_last(t, begin.indentation.0 as nat);
        assert(agree(body, 0, o, sb, body.len() as int)) by {
            assert(body.subrange(0, body.len() as int) =~= body);
        }
        lemma_code_run_shift(body, 0, body.len() as int, o, sb);
    } else {
        if code.start < code.end {
            lemma_code_run_end(src, code.start as int, code.end as int);
        }
        assert(agree(src, code.start as int, o, sb, body.len() as int));
        lemma_code_run_shift(src, code.start as int, code.end as int, o, sb - code.start);
    }
    lemma_skip_code_region(o, sb, q2, pos);
    // the end marker line
    let q = code.end as int;
    let c = choose|c: Span| #[trigger] line_spec(src, q, line_end(src, q)) == Ok::<Line, Parse_Error>(Line::END_CODEGEN { marker: end, checksum: c })
        && r->Generated_checksum == hex_decode(src.subrange(c.start as int, c.end as int));
    lemma_next_line(src, q);
    crate::laws::law_checksum_field_reads_back(digest@.subrange(0, n));
    lemma_end_line_reads_back(src, q, line_end(src, q), end, c, h, o, q2);
    let e3 = q2 + el.len() - 1;
    lemma_next_line(o, q2);
    let pe = q2 + end.indentation.0 + (end.before_marker.end - end.before_marker.start);
    let c3 = Span { start: (pe + 12) as usize, end: (pe + 12 + h.len()) as usize };
    assert(o.subrange(c3.start as int, c3.end as int) == h);
    assert(region_end(o, q2, pos) matches Ok((qq, mm, cc)) && qq == q2 && cc == c3);
    let g = Region::Generated {
        identifier: i2,
        code: Span { start: (e2 + 1) as usize, end: q2 as usize },
        checksum: hex_decode(h),
        begin: m2,
        end: region_end(o, q2, pos)->Ok_0.1,
    };
    assert(generated_at(o, pos, e2, m2, i2) == Ok::<(Region, int), Parse_Error>((g, q2 + el.len())));
    assert(span_bytes(o, g->Generated_code) =~= body);
    lemma_begin_line_bytes(src, begin, identifier);
    assert(span_bytes(o, i2) =~= span_bytes(src, identifier)) by {
        let ni = identifier.end - identifier.start;
        assert forall|k: int| 0 <= k < ni implies #[trigger] span_bytes(o, i2)[k] == span_bytes(src, identifier)[k] by {
            let x = ind + (begin.before_marker.end - begin.before_marker.start) + 11 + k;
            assert(o.subrange(pos, pos + bl.len())[x] == bl[x]);
        }
    }
    assert(hex_decode(h) == digest@.subrange(0, n));
    assert(intact(o, g));
}

/// The output written for region `i`, after `out`, where the producer is
/// `u`, `w`.
pub open spec fn next_out(src: Seq<u8>, rs: Seq<Region>, cfg: Config, u: spec_fn(nat) -> Usage, w: spec_fn(nat) -> Seq<u8>, i: int, out: Seq<u8>) -> Seq<u8> {
    match rs[i] {
        Region::Verbatim(sp) => out + span_bytes(src, sp),
        Region::Generated { identifier, begin, end, .. } => {
            let j = gen_index(rs, i);
            let body = placed_code(src, rs[i], u(j), w(j));
            let h = hex_lower(blake3_of(body)@.subrange(0, cfg.checksum_bytes_to_store as int));
            out + (begin_line(src, begin, identifier) + body + end_line(src, end, h))
        },
    }
}

/// The regeneration, from region `i` on with `out` written, ends with `o`.
pub open spec fn reaches(src: Seq<u8>, rs: Seq<Region>, cfg: Config, p: spec_fn(nat, Seq<u8>) -> Call, i: int, out: Seq<u8>, o: Seq<u8>) -> bool {
    exists|ch: bool| #[trigger] gen_regions(src, rs, cfg, p, i, gen_index(rs, i), out, ch) matches Ok((o2, c2)) && o2 == o
}

proof fn lemma_gen_step(
    src: Seq<u8>,
    rs: Seq<Region>,
    cfg: Config,
    p: spec_fn(nat, Seq<u8>) -> Call,
    u: spec_fn(nat) -> Usage,
    w: spec_fn(nat) -> Seq<u8>,
    o: Seq<u8>,
    i: int,
    out: Seq<u8>,
)
    requires
        appender(p, u, w),
        0 <= i < rs.len(),
        reaches(src, rs, cfg, p, i, out, o),
    ensures
        reaches(src, rs, cfg, p, i + 1, next_out(src, rs, cfg, u, w, i, out), o),
{
    let ch = choose|ch: bool| #[trigger] gen_regions(src, rs, cfg, p, i, gen_index(rs, i), out, ch) matches Ok((o2, c2)) && o2 == o;
    let j = gen_index(rs, i);
    assert(gen_index(rs, i + 1) == j + if rs[i] is Generated { 1nat } else { 0nat });
    match rs[i] {
        Region::Verbatim(sp) => {
            assert(gen_regions(src, rs, cfg, p, i + 1, gen_index(rs, i + 1), next_out(src, rs, cfg, u, w, i, out), ch) matches Ok((o2, c2)) && o2 == o);
        },
        Region::Generated { identifier, code, checksum, begin, end } => {
            let digest = blake3_of(span_bytes(src, code));
            let before = out + begin_line(src, begin, identifier);
            assert(p(j, before) == (Ok::<Usage, std::fmt::Error>(u(j)), before + w(j)));
            lemma_close_appending(src, rs[i], cfg, before, digest, u(j), w(j));
            let cr = close_region(src, rs[i], cfg, before.len() as int, blake3_of(before), digest, Ok(u(j)), before + w(j));
            let c1 = cr->Ok_0.1;
            assert(cr->Ok_0.0 =~= next_out(src, rs, cfg, u, w, i, out));
            assert(gen_regions(src, rs, cfg, p, i + 1, gen_index(rs, i + 1), next_out(src, rs, cfg, u, w, i, out), ch || c1) matches Ok((o2, c2)) && o2 == o);
        },
    }
}

/// Parsing `o` again from `pos`, with verbatim text pending from `v`, gives the
/// regions that stand for `rs[i..]`.
pub open spec fn reparse_claim(src: Seq<u8>, o: Seq<u8>, rs: Seq<Region>, cfg: Config, u: spec_fn(nat) -> Usage, w: spec_fn(nat) -> Seq<u8>, i: int, pos: int, v: int) -> bool {
    sections_from(o, pos, v) matches Ok(t) && ({
        let vl = if v < pos { 1int } else { 0int };
        &&& t.len() == vl + rs.len() - i
        &&& t.subrange(0, vl) == verbatim_until(v, pos)
        &&& forall|k: int| vl <= k < t.len() ==> reparsed(src, o, cfg, rs[i + (k - vl)], #[trigger] t[k], u(gen_index(rs, i + (k - vl))), w(gen_index(rs, i + (k - vl))))
    })
}

proof fn lemma_reparse_step_verbatim(
    src: Seq<u8>,
    rs: Seq<Region>,
    cfg: Config,
    u: spec_fn(nat) -> Usage,
    w: spec_fn(nat) -> Seq<u8>,
    o: Seq<u8>,
    i: int,
    pos: int,
    pos1: int,
)
    requires
        0 <= i < rs.len(),
        rs[i] is Verbatim,
        pos < pos1,
        code_run(o, pos, pos1),
        reparse_claim(src, o, rs, cfg, u, w, i + 1, pos1, pos),
    ensures
        reparse_claim(src, o, rs, cfg, u, w, i, pos, pos),
{
    lemma_skip_code_sections(o, pos, pos1, pos);
    let t = sections_from(o, pos1, pos)->Ok_0;
    assert(t.subrange(0, 1)[0] == t[0]);
    assert(verbatim_until(pos, pos1)[0] is Verbatim);
    assert forall|k: int| 0 <= k < t.len() implies reparsed(src, o, cfg, rs[i + (k - 0)], #[trigger] t[k], u(gen_index(rs, i + (k - 0))), w(gen_index(rs, i + (k - 0)))) by {
        if k > 0 {
            assert(i + (k - 0) == (i + 1) + (k - 1));
        }
    }
    assert(t.subrange(0, 0) =~= verbatim_until(pos, pos));
}

proof fn lemma_reparse_step_generated(
    src: Seq<u8>,
    rs: Seq<Region>,
    cfg: Config,
    u: spec_fn(nat) -> Usage,
    w: spec_fn(nat) -> Seq<u8>,
    o: Seq<u8>,
    i: int,
    pos: int,
    pos1: int,
    v: int,
)
    requires
        0 <= i < rs.len(),
        0 <= v <= pos,
        ({
            let bl = begin_line(src, rs[i]->Generated_begin, rs[i]->Generated_identifier);
            let e2 = pos + bl.len() - 1;
            &&& pos < o.len()
            &&& line_end(o, pos) == e2
            &&& e2 < o.len()
            &&& line_spec(o, pos, e2) matches Ok(Line::BEGIN_CODEGEN { marker, identifier })
                && generated_at(o, pos, e2, marker, identifier) matches Ok((g, n))
                && n == pos1
                && reparsed(src, o, cfg, rs[i], g, u(gen_index(rs, i)), w(gen_index(rs, i)))
        }),
        reparse_claim(src, o, rs, cfg, u, w, i + 1, pos1, pos1),
    ensures
        reparse_claim(src, o, rs, cfg, u, w, i, pos, v),
{
    let bl = begin_line(src, rs[i]->Generated_begin, rs[i]->Generated_identifier);
    let e2 = pos + bl.len() - 1;
    let marker = line_spec(o, pos, e2)->Ok_0->BEGIN_CODEGEN_marker;
    let ident2 = line_spec(o, pos, e2)->Ok_0->BEGIN_CODEGEN_identifier;
    let g = generated_at(o, pos, e2, marker, ident2)->Ok_0.0;
    let rest = sections_from(o, pos1, pos1)->Ok_0;
    assert(rest.subrange(0, 0) =~= Seq::<Region>::empty());
    let vl = if v < pos { 1int } else { 0int };
    let t = verbatim_until(v, pos) + seq![g] + rest;
    assert(sections_from(o, pos, v) == Ok::<Seq<Region>, Parse_Error>(t));
    assert(t.subrange(0, vl) =~= verbatim_until(v, pos));
    assert forall|k: int| vl <= k < t.len() implies reparsed(src, o, cfg, rs[i + (k - vl)], #[trigger] t[k], u(gen_index(rs, i + (k - vl))), w(gen_index(rs, i + (k - vl)))) by {
        if k > vl {
            let k1 = k - vl - 1;
            assert(t[k] == rest[k1]);
            assert(reparsed(src, o, cfg, rs[(i + 1) + (k1 - 0)], rest[k1], u(gen_index(rs, (i + 1) + (k1 - 0))), w(gen_index(rs, (i + 1) + (k1 - 0)))));
            assert(i + (k - vl) == (i + 1) + (k1 - 0));
        } else {
            assert(t[vl] == g);
        }
    }
}

proof fn lemma_subrange_of_prefix(o: Seq<u8>, out: Seq<u8>, x: Seq<u8>)
    requires
        (out + x).len() <= o.len(),
        o.subrange(0, (out + x).len() as int) == out + x,
    ensures
        o.subrange(out.len() as int, (out.len() + x.len()) as int) == x,
        out.len() + x.len() <= o.len(),
{
    assert(o.subrange(out.len() as int, (out.len() + x.len()) as int) =~= o.subrange(0, (out + x).len() as int).subrange(out.len() as int, (out.len() + x.len()) as int));
    assert((out + x).subrange(out.len() as int, (out.len() + x.len()) as int) =~= x);
}

proof fn lemma_verbatim_in_output(src: Seq<u8>, rs: Seq<Region>, i: int, o: Seq<u8>, out: Seq<u8>)
    requires
        0 <= i < rs.len(),
        rs[i] is Verbatim,
        region_facts(src, rs[i]),
        region_wf(src, rs[i]),
        (out + span_bytes(src, rs[i]->Verbatim_0)).len() <= o.len(),
        o.subrange(0, (out + span_bytes(src, rs[i]->Verbatim_0)).len() as int) == out + span_bytes(src, rs[i]->Verbatim_0),
        src[rs[i]->Verbatim_0.end - 1] != 10u8 ==> rs[i]->Verbatim_0.end == src.len() && o == out + span_bytes(src, rs[i]->Verbatim_0),
    ensures
        code_run(o, out.len() as int, (out.len() + span_bytes(src, rs[i]->Verbatim_0).len()) as int),
{
    let sp = rs[i]->Verbatim_0;
    let text = span_bytes(src, sp);
    lemma_subrange_of_prefix(o, out, text);
    assert(agree(src, sp.start as int, o, out.len() as int, text.len() as int));
    lemma_code_run_shift(src, sp.start as int, sp.end as int, o, out.len() - sp.start);
}

#[verifier::spinoff_prover]
#[verifier::rlimit(100)]
proof fn lemma_reparse(
    src: Seq<u8>,
    rs: Seq<Region>,
    cfg: Config,
    p: spec_fn(nat, Seq<u8>) -> Call,
    u: spec_fn(nat) -> Usage,
    w: spec_fn(nat) -> Seq<u8>,
    o: Seq<u8>,
    i: int,
    out: Seq<u8>,
    v: int,
)
    requires
        src.len() <= usize::MAX,
        o.len() <= usize::MAX,
        cfg.checksum_bytes_to_store <= 32,
        forall|k: int| 0 <= k < rs.len() ==> region_facts(src, #[trigger] rs[k]) && region_wf(src, rs[k]),
        no_adjacent_verbatim(rs),
        appender(p, u, w),
        places_code_lines(rs, u, w),
        0 <= i <= rs.len(),
        reaches(src, rs, cfg, p, i, out, o),
        out.len() <= o.len(),
        o.subrange(0, out.len() as int) == out,
        0 <= v <= out.len(),
        v < out.len() ==> i == rs.len() || rs[i] is Generated,
        i < rs.len() && rs[i] is Verbatim ==> v == out.len(),
    ensures
        reparse_claim(src, o, rs, cfg, u, w, i, out.len() as int, v),
    decreases rs.len() - i,
{
    let pos = out.len() as int;
    if i == rs.len() {
        let ch = choose|ch: bool| #[trigger] gen_regions(src, rs, cfg, p, i, gen_index(rs, i), out, ch) matches Ok((o2, c2)) && o2 == o;
        assert(o == out);
        let vl = if v < pos { 1int } else { 0int };
        let t = verbatim_until(v, pos);
        assert(t.subrange(0, vl) =~= t);
    } else {
        assert(region_facts(src, rs[i]) && region_wf(src, rs[i]));
        lemma_gen_step(src, rs, cfg, p, u, w, o, i, out);
        let out1 = next_out(src, rs, cfg, u, w, i, out);
        let ch1 = choose|ch: bool| #[trigger] gen_regions(src, rs, cfg, p, i + 1, gen_index(rs, i + 1), out1, ch) matches Ok((o2, c2)) && o2 == o;
        lemma_gen_prefix(src, rs, cfg, p, u, w, i + 1, gen_index(rs, i + 1), out1, ch1);
        match rs[i] {
            Region::Verbatim(sp) => {
                lemma_code_run_end(src, sp.start as int, sp.end as int);
                if src[sp.end - 1] != 10u8 && i + 1 < rs.len() {
                    assert(rs[i + 1] is Generated);
                    assert(region_facts(src, rs[i + 1]));
                }
                if src[sp.end - 1] != 10u8 && i + 1 == rs.len() {
                    assert(gen_regions(src, rs, cfg, p, i + 1, gen_index(rs, i + 1), out1, ch1) == Ok::<(Seq<u8>, bool), Gen_Error>((out1, ch1)));
                }
                lemma_verbatim_in_output(src, rs, i, o, out);
                lemma_reparse(src, rs, cfg, p, u, w, o, i + 1, out1, v);
                lemma_reparse_step_verbatim(src, rs, cfg, u, w, o, i, pos, out1.len() as int);
            },
            Region::Generated { identifier, code, checksum, begin, end } => {
                let j = gen_index(rs, i);
                let bl = begin_line(src, begin, identifier);
                let body = placed_code(src, rs[i], u(j), w(j));
                let h = hex_lower(blake3_of(body)@.subrange(0, cfg.checksum_bytes_to_store as int));
                let el = end_line(src, end, h);
                lemma_subrange_of_prefix(o, out, bl + body + el);
                lemma_reparse_generated(src, rs[i], cfg, u(j), w(j), o, pos);
                lemma_reparse(src, rs, cfg, p, u, w, o, i + 1, out1, out1.len() as int);
                lemma_reparse_step_generated(src, rs, cfg, u, w, o, i, pos, out1.len() as int, v);
            },
        }
    }
}

proof fn lemma_same_kinds(rs: Seq<Region>, t: Seq<Region>, k: int)
    requires
        rs.len() == t.len(),
        0 <= k <= rs.len(),
        forall|m: int| 0 <= m < rs.len() ==> ((#[trigger] rs[m]) is Generated <==> t[m] is Generated),
    ensures
        gen_index(rs, k) == gen_index(t, k),
    decreases k,
{
    if k > 0 {
        lemma_same_kinds(rs, t, k - 1);
        assert(rs[k - 1] is Generated <==> t[k - 1] is Generated);
    }
}

/// The regenerated text parses into regions that stand, one for one, for those
/// of `src`.
#[verifier::spinoff_prover]
#[verifier::rlimit(100)]
proof fn lemma_reparse_output(
    src: Seq<u8>,
    cfg: Config,
    p: spec_fn(nat, Seq<u8>) -> Call,
    u: spec_fn(nat) -> Usage,
    w: spec_fn(nat) -> Seq<u8>,
    out: Seq<u8>,
)
    requires
        src.len() <= usize::MAX,
        out.len() <= usize::MAX,
        cfg.checksum_bytes_to_store <= 32,
        appender(p, u, w),
        parse_spec(src) is Ok,
        places_code_lines(parse_spec(src)->Ok_0, u, w),
        generate_bytes(src, cfg, p) == Ok::<Option<Seq<u8>>, Gen_Error>(Some(out)),
    ensures
        parse_spec(out) is Ok,
        parse_spec(out)->Ok_0.len() == parse_spec(src)->Ok_0.len(),
        forall|k: int| 0 <= k < parse_spec(src)->Ok_0.len() ==> reparsed(
            src,
            out,
            cfg,
            parse_spec(src)->Ok_0[k],
            #[trigger] parse_spec(out)->Ok_0[k],
            u(gen_index(parse_spec(src)->Ok_0, k)),
            w(gen_index(parse_spec(src)->Ok_0, k)),
        ),
{
    let rs = parse_spec(src)->Ok_0;
    assert(code_run(src, 0, 0));
    lemma_sections_facts(src, 0, 0);
    lemma_sections_wf(src, 0, 0);
    assert(gen_index(rs, 0) == 0);
    assert(gen_regions(src, rs, cfg, p, 0, 0, Seq::empty(), false) == Ok::<(Seq<u8>, bool), Gen_Error>((out, true)));
    assert(reaches(src, rs, cfg, p, 0, Seq::empty(), out));
    assert(out.subrange(0, 0) =~= Seq::<u8>::empty());
    lemma_reparse(src, rs, cfg, p, u, w, out, 0, Seq::empty(), 0);
    let t = sections_from(out, 0, 0)->Ok_0;
    assert forall|k: int| 0 <= k < rs.len() implies reparsed(src, out, cfg, rs[k], #[trigger] t[k], u(gen_index(rs, k)), w(gen_index(rs, k))) by {
        assert(reparsed(src, out, cfg, rs[0 + (k - 0)], t[k], u(gen_index(rs, 0 + (k - 0))), w(gen_index(rs, 0 + (k - 0)))));
    }
}

proof fn lemma_gen_index_step(rs: Seq<Region>, i: int, k: int)
    requires
        0 <= i < k <= rs.len(),
    ensures
        gen_index(rs, k) >= gen_index(rs, i + 1),
        gen_index(rs, i + 1) == gen_index(rs, i) + if rs[i] is Generated { 1nat } else { 0nat },
    decreases k - i,
{
    if k > i + 1 {
        lemma_gen_index_step(rs, i, k - 1);
    }
}

proof fn lemma_ident_from(src: Seq<u8>, rs: Seq<Region>, i: int, k: int)
    requires
        0 <= i <= k < rs.len(),
        rs[k] is Generated,
    ensures
        gen_index(rs, k) >= gen_index(rs, i),
        ident_from(src, rs, i, (gen_index(rs, k) - gen_index(rs, i)) as nat) == ident_chars(src, rs[k]->Generated_identifier),
    decreases k - i,
{
    if i < k {
        lemma_gen_index_step(rs, i, k);
        lemma_ident_from(src, rs, i + 1, k);
    }
}

/// The identifier that call number `gen_index(rs, k)` receives is that of the
/// generated region `k`.
pub proof fn lemma_call_ident(src: Seq<u8>, k: int)
    requires
        parse_spec(src) is Ok,
        0 <= k < parse_spec(src)->Ok_0.len(),
        parse_spec(src)->Ok_0[k] is Generated,
    ensures
        call_ident(src, gen_index(parse_spec(src)->Ok_0, k)) == ident_chars(src, parse_spec(src)->Ok_0[k]->Generated_identifier),
{
    lemma_ident_from(src, parse_spec(src)->Ok_0, 0, k);
}

/// Where a producer's outcome depends on the identifier and the buffer it
/// receives, `d(id, b)`, returning `u(id)` and appending `w(id)`.
pub open spec fn appends_by_ident(d: spec_fn(Seq<char>, Seq<u8>) -> Call, u: spec_fn(Seq<char>) -> Usage, w: spec_fn(Seq<char>) -> Seq<u8>) -> bool {
    forall|id: Seq<char>, b: Seq<u8>| #[trigger] d(id, b) == (Ok::<Usage, std::fmt::Error>(u(id)), b + w(id))
}

/// Where the producer's text replaces a region's code, that text, ending in a
/// line break and indented, holds code lines only.
pub open spec fn places_code_lines_by_ident(src: Seq<u8>, rs: Seq<Region>, u: spec_fn(Seq<char>) -> Usage, w: spec_fn(Seq<char>) -> Seq<u8>) -> bool {
    forall|k: int| 0 <= k < rs.len() && (#[trigger] rs[k]) is Generated && u(ident_chars(src, rs[k]->Generated_identifier)) == Usage::USE ==> {
        let t = indent_bytes(with_tailing_linebreak(w(ident_chars(src, rs[k]->Generated_identifier)), 10u8), rs[k]->Generated_begin.indentation.0 as nat);
        code_run(t, 0, t.len() as int)
    }
}

/// Regenerating a regenerated text changes nothing: where the producer `d`
/// returns `u(id)` for the identifier `id` and appends `w(id)` to the buffer,
/// and no text that it places in a region holds a marker line, regenerating
/// the output `out` a second time with the same producer gives `None`. The one
/// exception is an output too large to index. (`generate` gives
/// `generate_spec(.., by_ident(.., d))` for a producer whose contract fixes its
/// outcomes as `d`.)
#[verifier::spinoff_prover]
#[verifier::rlimit(100)]
pub proof fn law_regenerating_output_changes_nothing(
    src: Seq<u8>,
    cfg: Config,
    d: spec_fn(Seq<char>, Seq<u8>) -> Call,
    u: spec_fn(Seq<char>) -> Usage,
    w: spec_fn(Seq<char>) -> Seq<u8>,
    out: Seq<u8>,
)
    requires
        src.len() <= usize::MAX,
        out.len() <= usize::MAX,
        cfg.checksum_bytes_to_store <= 32,
        appends_by_ident(d, u, w),
        parse_spec(src) is Ok,
        places_code_lines_by_ident(src, parse_spec(src)->Ok_0, u, w),
        generate_bytes(src, cfg, by_ident(src, d)) == Ok::<Option<Seq<u8>>, Gen_Error>(Some(out)),
    ensures
        generate_bytes(out, cfg, by_ident(out, d)) == Ok::<Option<Seq<u8>>, Gen_Error>(None)
            || generate_bytes(out, cfg, by_ident(out, d)) == Err::<Option<Seq<u8>>, Gen_Error>(Gen_Error::TOO_LARGE),
        generate_spec(out, cfg, by_ident(out, d)) == Ok::<Option<Seq<char>>, Gen_Error>(None)
            || generate_spec(out, cfg, by_ident(out, d)) == Err::<Option<Seq<char>>, Gen_Error>(Gen_Error::TOO_LARGE),
{
    let rs = parse_spec(src)->Ok_0;
    let p1 = by_ident(src, d);
    let u1 = |j: nat| u(call_ident(src, j));
    let w1 = |j: nat| w(call_ident(src, j));
    assert(appender(p1, u1, w1)) by {
        assert forall|j: nat, b: Seq<u8>| #[trigger] p1(j, b) == (Ok::<Usage, std::fmt::Error>(u1(j)), b + w1(j)) by {
            assert(d(call_ident(src, j), b) == (Ok::<Usage, std::fmt::Error>(u(call_ident(src, j))), b + w(call_ident(src, j))));
        }
    }
    assert(places_code_lines(rs, u1, w1)) by {
        assert forall|k: int| 0 <= k < rs.len() && (#[trigger] rs[k]) is Generated && u1(gen_index(rs, k)) == Usage::USE implies ({
            let t = indent_bytes(with_tailing_linebreak(w1(gen_index(rs, k)), 10u8), rs[k]->Generated_begin.indentation.0 as nat);
            code_run(t, 0, t.len() as int)
        }) by {
            lemma_call_ident(src, k);
        }
    }
    lemma_reparse_output(src, cfg, p1, u1, w1, out);
    let t = parse_spec(out)->Ok_0;
    let p2 = by_ident(out, d);
    assert forall|m: int| 0 <= m < rs.len() implies ((#[trigger] rs[m]) is Generated <==> t[m] is Generated) by {
        assert(reparsed(src, out, cfg, rs[m], t[m], u1(gen_index(rs, m)), w1(gen_index(rs, m))));
    }
    assert forall|k: int| 0 <= k < t.len() implies intact(out, #[trigger] t[k]) && !length_differs(cfg, t[k]) by {
        assert(reparsed(src, out, cfg, rs[k], t[k], u1(gen_index(rs, k)), w1(gen_index(rs, k))));
    }
    assert(only_appends(p2)) by {
        assert forall|j: nat, b: Seq<u8>| {
            let c = #[trigger] p2(j, b);
            c.0 is Ok && c.1.len() >= b.len() && c.1.subrange(0, b.len() as int) == b
        } by {
            let id = call_ident(out, j);
            assert(d(id, b) == (Ok::<Usage, std::fmt::Error>(u(id)), b + w(id)));
            assert((b + w(id)).subrange(0, b.len() as int) =~= b);
        }
    }
    assert(keeps_code(out, t, p2)) by {
        assert forall|k: int, b: Seq<u8>| 0 <= k < t.len() && t[k] is Generated implies {
            let c = #[trigger] p2(gen_index(t, k), b);
            placed_code(out, t[k], c.0->Ok_0, c.1.subrange(b.len() as int, c.1.len() as int)) == span_bytes(out, t[k]->Generated_code)
        } by {
            lemma_same_kinds(rs, t, k);
            assert(reparsed(src, out, cfg, rs[k], t[k], u1(gen_index(rs, k)), w1(gen_index(rs, k))));
            lemma_call_ident(src, k);
            lemma_call_ident(out, k);
            let id = call_ident(out, gen_index(t, k));
            assert(id == call_ident(src, gen_index(rs, k)));
            assert(d(id, b) == (Ok::<Usage, std::fmt::Error>(u(id)), b + w(id)));
            assert((b + w(id)).subrange(b.len() as int, (b + w(id)).len() as int) =~= w(id));
        }
    }
    lemma_unchanged_regions(out, t, cfg, p2, 0, Seq::empty(), false);
    assert(gen_index(t, 0) == 0);
    if some_length_differs(t, cfg, 0) {
        let k = choose|k: int| 0 <= k < t.len() && length_differs(cfg, #[trigger] t[k]);
        assert(!length_differs(cfg, t[k]));
    }
}

/// The laws of `laws` for a producer whose contract fixes its outcome as `d` of
/// the identifier and buffer it receives, which is what `generate` gives
/// (`generate_spec(src, cfg, by_ident(src, d))`).
///
/// A producer that reproduces every region's code changes nothing: where each
/// stored checksum matches its code and has the configured length, and the
/// producer returns `u(id)` and appends `w(id)` such that, for a region it uses,
/// `w(id)` ending in a line break and indented like the begin marker line is
/// the region's old code, the result is `None`, but for an output too large to
/// index.
pub proof fn law_reproducing_producer_changes_nothing(
    src: Seq<u8>,
    cfg: Config,
    d: spec_fn(Seq<char>, Seq<u8>) -> Call,
    u: spec_fn(Seq<char>) -> Usage,
    w: spec_fn(Seq<char>) -> Seq<u8>,
)
    requires
        appends_by_ident(d, u, w),
        parse_spec(src) is Ok,
        forall|k: int| 0 <= k < parse_spec(src)->Ok_0.len() ==> intact(src, #[trigger] parse_spec(src)->Ok_0[k]),
        forall|k: int| 0 <= k < parse_spec(src)->Ok_0.len() ==> !length_differs(cfg, #[trigger] parse_spec(src)->Ok_0[k]),
        forall|k: int| 0 <= k < parse_spec(src)->Ok_0.len() && (#[trigger] parse_spec(src)->Ok_0[k]) is Generated ==> ({
            let r = parse_spec(src)->Ok_0[k];
            let id = ident_chars(src, r->Generated_identifier);
            u(id) == Usage::USE ==> indent_bytes(with_tailing_linebreak(w(id), 10u8), r->Generated_begin.indentation.0 as nat)
                == span_bytes(src, r->Generated_code)
        }),
    ensures
        generate_spec(src, cfg, by_ident(src, d)) == Ok::<Option<Seq<char>>, Gen_Error>(None)
            || generate_spec(src, cfg, by_ident(src, d)) == Err::<Option<Seq<char>>, Gen_Error>(Gen_Error::TOO_LARGE),
{
    let rs = parse_spec(src)->Ok_0;
    let p = by_ident(src, d);
    lemma_by_ident_appends(src, d, u, w);
    assert(keeps_code(src, rs, p)) by {
        assert forall|k: int, b: Seq<u8>| 0 <= k < rs.len() && rs[k] is Generated implies {
            let c = #[trigger] p(gen_index(rs, k), b);
            placed_code(src, rs[k], c.0->Ok_0, c.1.subrange(b.len() as int, c.1.len() as int)) == span_bytes(src, rs[k]->Generated_code)
        } by {
            lemma_call_ident(src, k);
            let id = ident_chars(src, rs[k]->Generated_identifier);
            assert(d(id, b) == (Ok::<Usage, std::fmt::Error>(u(id)), b + w(id)));
            assert((b + w(id)).subrange(b.len() as int, (b + w(id)).len() as int) =~= w(id));
        }
    }
    law_reproduced_code_changes_nothing(src, cfg, p);
}

proof fn lemma_by_ident_appends(src: Seq<u8>, d: spec_fn(Seq<char>, Seq<u8>) -> Call, u: spec_fn(Seq<char>) -> Usage, w: spec_fn(Seq<char>) -> Seq<u8>)
    requires
        appends_by_ident(d, u, w),
    ensures
        only_appends(by_ident(src, d)),
        forall|j: nat, b: Seq<u8>| (#[trigger] by_ident(src, d)(j, b)).0 == Ok::<Usage, std::fmt::Error>(u(call_ident(src, j))),
{
    let p = by_ident(src, d);
    assert forall|j: nat, b: Seq<u8>| {
        let c = #[trigger] p(j, b);
        c.0 is Ok && c.1.len() >= b.len() && c.1.subrange(0, b.len() as int) == b
    } by {
        let id = call_ident(src, j);
        assert(d(id, b) == (Ok::<Usage, std::fmt::Error>(u(id)), b + w(id)));
        assert((b + w(id)).subrange(0, b.len() as int) =~= b);
    }
    assert forall|j: nat, b: Seq<u8>| (#[trigger] p(j, b)).0 == Ok::<Usage, std::fmt::Error>(u(call_ident(src, j))) by {
        let id = call_ident(src, j);
        assert(d(id, b) == (Ok::<Usage, std::fmt::Error>(u(id)), b + w(id)));
    }
}

/// A producer that only appends and ignores every region changes nothing,
/// whatever it appended: where each stored checksum matches its code and has
/// the configured length, the result is `None`.
pub proof fn law_ignoring_producer_by_ident(
    src: Seq<u8>,
    cfg: Config,
    d: spec_fn(Seq<char>, Seq<u8>) -> Call,
    w: spec_fn(Seq<char>) -> Seq<u8>,
)
    requires
        appends_by_ident(d, |id: Seq<char>| Usage::IGNORE, w),
        parse_spec(src) is Ok,
        forall|k: int| 0 <= k < parse_spec(src)->Ok_0.len() ==> intact(src, #[trigger] parse_spec(src)->Ok_0[k]),
        forall|k: int| 0 <= k < parse_spec(src)->Ok_0.len() ==> !length_differs(cfg, #[trigger] parse_spec(src)->Ok_0[k]),
    ensures
        generate_spec(src, cfg, by_ident(src, d)) == Ok::<Option<Seq<char>>, Gen_Error>(None),
{
    lemma_by_ident_appends(src, d, |id: Seq<char>| Usage::IGNORE, w);
    law_ignoring_producer_changes_nothing(src, cfg, by_ident(src, d));
}

/// Starting to store checksums rewrites the file even where no code changes:
/// where no region stores a checksum, the configuration asks for one, and the
/// producer only appends and ignores every region, the result is new text.
pub proof fn law_new_checksum_length_by_ident(
    src: Seq<u8>,
    cfg: Config,
    d: spec_fn(Seq<char>, Seq<u8>) -> Call,
    w: spec_fn(Seq<char>) -> Seq<u8>,
)
    requires
        appends_by_ident(d, |id: Seq<char>| Usage::IGNORE, w),
        parse_spec(src) is Ok,
        has_generated(parse_spec(src)->Ok_0),
        forall|k: int| 0 <= k < parse_spec(src)->Ok_0.len() && (#[trigger] parse_spec(src)->Ok_0[k]) is Generated
            ==> parse_spec(src)->Ok_0[k]->Generated_checksum.len() == 0,
        cfg.checksum_bytes_to_store > 0,
    ensures
        generate_bytes(src, cfg, by_ident(src, d)) matches Ok(Some(_)),
        generate_spec(src, cfg, by_ident(src, d)) != Ok::<Option<Seq<char>>, Gen_Error>(None),
{
    lemma_by_ident_appends(src, d, |id: Seq<char>| Usage::IGNORE, w);
    law_new_checksum_length_rewrites(src, cfg, by_ident(src, d));
}

/// A producer that shortens the output below its region's start, or changes
/// the output before it so that its digest changes, makes the regeneration
/// fail with `FORBIDDEN`, where the first generated region `k` is intact and
/// the producer succeeds but does so on every identifier and buffer.
pub proof fn law_disturbing_producer_by_ident(src: Seq<u8>, cfg: Config, d: spec_fn(Seq<char>, Seq<u8>) -> Call, k: int)
    requires
        parse_spec(src) is Ok,
        first_generated(parse_spec(src)->Ok_0, k),
        intact(src, parse_spec(src)->Ok_0[k]),
        forall|id: Seq<char>, b: Seq<u8>| {
            let c = #[trigger] d(id, b);
            &&& c.0 is Ok
            &&& c.1.len() < b.len() || blake3_of(c.1.subrange(0, b.len() as int))@ != blake3_of(b)@
        },
    ensures
        generate_spec(src, cfg, by_ident(src, d)) == Err::<Option<Seq<char>>, Gen_Error>(Gen_Error::FORBIDDEN),
{
    let p = by_ident(src, d);
    assert forall|j: nat, b: Seq<u8>| {
        let c = #[trigger] p(j, b);
        &&& c.0 is Ok
        &&& c.1.len() < b.len() || blake3_of(c.1.subrange(0, b.len() as int))@ != blake3_of(b)@
    } by {
        let c = d(call_ident(src, j), b);
    }
    law_disturbing_producer_is_refused(src, cfg, p, k);
}

} // verus!
