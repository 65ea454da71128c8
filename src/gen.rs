use arrayvec::ArrayVec;
use vstd::prelude::*;
use vstd::string::StringSliceAdditionalSpecFns;
use vstd::utf8::{decode_utf8, valid_utf8};

use crate::checksum::{blake3_of, checksum_slice, hash_of, hex_lower, push_hex, stored_bytes};
use crate::indentation::{indent_bytes, indent_growth, indent_subrange, opened_lines, push_char, spaces, with_tailing_linebreak};
use crate::parse_file::parser::line::{begin_token, end_token};
use crate::parse_file::parser::{lemma_sections_wf, parse, parse_spec, region_wf, span_in};
use crate::parse_file::{Marker, Parse_Error, Region, Section, Span};

verus! {

/// `std::fmt::Error`, which a producer returns when it fails; it is only passed
/// on.
#[verifier::external_type_specification]
#[verifier::external_body]
pub struct ExFmtError(std::fmt::Error);

/// How many bytes of each region's fresh BLAKE3 digest are written, hex
/// encoded, into its end marker: at most 32.
#[derive(Clone, Copy, Default, Debug, PartialEq, Eq)]
pub struct Config {
    pub checksum_bytes_to_store: u8,
}

impl Config {
    /// Whether the configured length fits a BLAKE3 digest, 32 bytes.
    pub fn is_valid(&self) -> (r: bool)
        ensures
            r == (self.checksum_bytes_to_store <= 32),
    {
        self.checksum_bytes_to_store <= 32
    }
}

/// A producer's verdict on a region: `USE` replaces the region's code by what
/// the producer appended, `IGNORE` keeps the old code and drops what it
/// appended.
#[derive(Clone, Copy, Debug, PartialEq, Eq)]
pub enum Usage {
    USE,
    IGNORE,
}

/// What a producer returns: its verdict on the region, or its failure.
pub type Fmt_Result = Result<Usage, std::fmt::Error>;

/// Why a regeneration failed; it then returns no text at all.
#[derive(Clone, Copy, Debug, PartialEq, Eq)]
pub enum Gen_Error {
    /// The source does not parse.
    FIND(Parse_Error),
    /// The producer failed.
    FMT(std::fmt::Error),
    /// A region's code does not match the checksum stored in its end marker:
    /// it was edited since it was generated. Holds the code's actual digest.
    WRONG_CHECKSUM([u8; 32]),
    /// The producer shortened or changed the output before its region.
    FORBIDDEN,
    /// The indented region would not fit in memory.
    TOO_LARGE,
    /// The regenerated text is not UTF-8.
    NOT_UTF8,
}

/// What a producer call did: what it returned, and the output buffer it left.
pub type Call = (Fmt_Result, Seq<u8>);

/// The bytes of `src` that the span `s` covers.
pub open spec fn span_bytes(src: Seq<u8>, s: Span) -> Seq<u8> {
    src.subrange(s.start as int, s.end as int)
}

/// Whether a stored checksum is a prefix of `digest`; an empty one always is.
pub open spec fn checksum_matches(stored: Seq<u8>, digest: [u8; 32]) -> bool {
    stored.len() <= 32 && stored == digest@.subrange(0, stored.len() as int)
}

/// The begin marker line as it is written out.
pub open spec fn begin_line(src: Seq<u8>, m: Marker, identifier: Span) -> Seq<u8> {
    spaces(m.indentation.0 as nat) + span_bytes(src, m.before_marker) + begin_token() + span_bytes(src, identifier)
        + seq![32u8, 62u8, 62u8] + span_bytes(src, m.after_marker) + seq![10u8]
}

/// The end marker line as it is written out, from the end marker, with `hex` as
/// its checksum field.
pub open spec fn end_line(src: Seq<u8>, end: Marker, hex: Seq<u8>) -> Seq<u8> {
    spaces(end.indentation.0 as nat) + span_bytes(src, end.before_marker) + end_token() + seq![32u8]
        + (if hex.len() > 0 { hex + seq![32u8] } else { Seq::empty() }) + seq![62u8, 62u8]
        + span_bytes(src, end.after_marker) + seq![10u8]
}

/// The rest of a generated region's work, once its begin marker line has been
/// written, ending at `start`, and the producer has run and left `after`:
/// the output up to and with the end marker line, and whether the region
/// changed. `guard` is the digest of the output before `start` as it was before
/// the producer ran, `old_digest` the digest of the region's old code.
pub open spec fn close_region(
    src: Seq<u8>,
    r: Region,
    cfg: Config,
    start: int,
    guard: [u8; 32],
    old_digest: [u8; 32],
    res: Fmt_Result,
    after: Seq<u8>,
) -> Result<(Seq<u8>, bool), Gen_Error> {
    match r {
        Region::Verbatim(_) => Ok((after, false)),
        Region::Generated { identifier, code, checksum, begin, end } => {
            match res {
                Err(e) => Err(Gen_Error::FMT(e)),
                Ok(u) => if after.len() < start || blake3_of(after.subrange(0, start))@ != guard@ {
                    Err(Gen_Error::FORBIDDEN)
                } else {
                    let t = with_tailing_linebreak(after.subrange(start, after.len() as int), 10u8);
                    let n = begin.indentation.0 as nat;
                    if u == Usage::USE && start + t.len() + opened_lines(t, 0, t.len() as int, 10u8) * n > usize::MAX {
                        Err(Gen_Error::TOO_LARGE)
                    } else {
                        let body = if u == Usage::USE { indent_bytes(t, n) } else { span_bytes(src, code) };
                        let digest = blake3_of(body);
                        let hex = hex_lower(digest@.subrange(0, cfg.checksum_bytes_to_store as int));
                        Ok((
                            after.subrange(0, start) + body + end_line(src, end, hex),
                            cfg.checksum_bytes_to_store != checksum.len() || digest@ != old_digest@,
                        ))
                    }
                },
            }
        },
    }
}

/// Regenerating the regions `rs[i..]`, with `out` written so far, `changed`
/// telling whether anything changed so far, and `j` producer calls made so far;
/// `p(j, b)` is what the producer's call number `j` does on the buffer `b`.
pub open spec fn gen_regions(
    src: Seq<u8>,
    rs: Seq<Region>,
    cfg: Config,
    p: spec_fn(nat, Seq<u8>) -> Call,
    i: int,
    j: nat,
    out: Seq<u8>,
    changed: bool,
) -> Result<(Seq<u8>, bool), Gen_Error>
    decreases rs.len() - i,
{
    if i < 0 || i >= rs.len() {
        Ok((out, changed))
    } else {
        match rs[i] {
            Region::Verbatim(s) => gen_regions(src, rs, cfg, p, i + 1, j, out + span_bytes(src, s), changed),
            Region::Generated { identifier, code, checksum, begin, end } => {
                let digest = blake3_of(span_bytes(src, code));
                if !checksum_matches(checksum, digest) {
                    Err(Gen_Error::WRONG_CHECKSUM(digest))
                } else {
                    let before = out + begin_line(src, begin, identifier);
                    let call = p(j, before);
                    match close_region(src, rs[i], cfg, before.len() as int, blake3_of(before), digest, call.0, call.1) {
                        Err(e) => Err(e),
                        Ok((o, c)) => gen_regions(src, rs, cfg, p, i + 1, j + 1, o, changed || c),
                    }
                }
            },
        }
    }
}

/// The identifier of a region as the producer receives it: its bytes, which
/// are ASCII, as chars.
pub open spec fn ident_chars(src: Seq<u8>, s: Span) -> Seq<char> {
    span_bytes(src, s).map_values(|b: u8| b as char)
}

/// What producer call number `k` receives, counted from region `i` with `j`
/// calls made and `out` written: the region's identifier and the output buffer
/// up to and with its begin marker line. `None` where the regeneration stops
/// before that call.
pub open spec fn query(
    src: Seq<u8>,
    rs: Seq<Region>,
    cfg: Config,
    p: spec_fn(nat, Seq<u8>) -> Call,
    i: int,
    j: nat,
    out: Seq<u8>,
    changed: bool,
    k: nat,
) -> Option<(Seq<char>, Seq<u8>)>
    decreases rs.len() - i,
{
    if i < 0 || i >= rs.len() {
        None
    } else {
        match rs[i] {
            Region::Verbatim(s) => query(src, rs, cfg, p, i + 1, j, out + span_bytes(src, s), changed, k),
            Region::Generated { identifier, code, checksum, begin, end } => {
                let digest = blake3_of(span_bytes(src, code));
                if !checksum_matches(checksum, digest) {
                    None
                } else {
                    let before = out + begin_line(src, begin, identifier);
                    if k == j {
                        Some((ident_chars(src, identifier), before))
                    } else {
                        let call = p(j, before);
                        match close_region(src, rs[i], cfg, before.len() as int, blake3_of(before), digest, call.0, call.1) {
                            Err(e) => None,
                            Ok((o, c)) => query(src, rs, cfg, p, i + 1, j + 1, o, changed || c, k),
                        }
                    }
                }
            },
        }
    }
}

/// What producer call number `k` receives when `generate` runs on `src`, where
/// the calls do what `p` says; `None` where there is no such call.
pub open spec fn call_query(src: Seq<u8>, cfg: Config, p: spec_fn(nat, Seq<u8>) -> Call, k: nat) -> Option<(Seq<char>, Seq<u8>)> {
    match parse_spec(src) {
        Ok(rs) => if has_generated(rs) {
            query(src, rs, cfg, p, 0, 0, Seq::empty(), false, k)
        } else {
            None
        },
        Err(_) => None,
    }
}

/// The identifier of the `k`-th generated region from region `i` on.
pub open spec fn ident_from(src: Seq<u8>, rs: Seq<Region>, i: int, k: nat) -> Seq<char>
    decreases rs.len() - i,
{
    if i < 0 || i >= rs.len() {
        Seq::empty()
    } else {
        match rs[i] {
            Region::Verbatim(_) => ident_from(src, rs, i + 1, k),
            Region::Generated { identifier, .. } => if k == 0 {
                ident_chars(src, identifier)
            } else {
                ident_from(src, rs, i + 1, (k - 1) as nat)
            },
        }
    }
}

/// The identifier that producer call number `k` receives for `src`: that of
/// its `k`-th generated region.
pub open spec fn call_ident(src: Seq<u8>, k: nat) -> Seq<char> {
    match parse_spec(src) {
        Ok(rs) => ident_from(src, rs, 0, k),
        Err(_) => Seq::empty(),
    }
}

/// The producer behaviour of a producer whose outcome is `d` of the identifier
/// and the buffer it receives.
pub open spec fn by_ident(src: Seq<u8>, d: spec_fn(Seq<char>, Seq<u8>) -> Call) -> spec_fn(nat, Seq<u8>) -> Call {
    |k: nat, b: Seq<u8>| d(call_ident(src, k), b)
}

/// Every outcome that the contract of a producer of `f`'s type admits is the one
/// `d` gives: what it returns, and the buffer it hands back, for the identifier
/// and buffer it receives.
pub open spec fn determines<F: FnMut(&str, Vec<u8>) -> (Vec<u8>, Fmt_Result)>(f: F, d: spec_fn(Seq<char>, Seq<u8>) -> Call) -> bool {
    forall|g: F, i: &str, b: Vec<u8>, a: Vec<u8>, res: Fmt_Result|
        #[trigger] call_ensures(g, (i, b), (a, res)) ==> (res, a@) == d(i@, b@)
}

pub proof fn lemma_query_ident(
    src: Seq<u8>,
    rs: Seq<Region>,
    cfg: Config,
    p: spec_fn(nat, Seq<u8>) -> Call,
    i: int,
    j: nat,
    out: Seq<u8>,
    changed: bool,
    k: nat,
)
    ensures
        query(src, rs, cfg, p, i, j, out, changed, k) matches Some((id, b)) ==> j <= k && id == ident_from(src, rs, i, (k - j) as nat),
    decreases rs.len() - i,
{
    if 0 <= i < rs.len() {
        match rs[i] {
            Region::Verbatim(s) => {
                lemma_query_ident(src, rs, cfg, p, i + 1, j, out + span_bytes(src, s), changed, k);
            },
            Region::Generated { identifier, code, checksum, begin, end } => {
                let digest = blake3_of(span_bytes(src, code));
                let before = out + begin_line(src, begin, identifier);
                let call = p(j, before);
                if let Ok((o, c)) = close_region(src, rs[i], cfg, before.len() as int, blake3_of(before), digest, call.0, call.1) {
                    lemma_query_ident(src, rs, cfg, p, i + 1, j + 1, o, changed || c, k);
                }
            },
        }
    }
}

/// The regeneration depends on the producer only where it calls it.
pub proof fn lemma_agree_on_queries(
    src: Seq<u8>,
    rs: Seq<Region>,
    cfg: Config,
    p: spec_fn(nat, Seq<u8>) -> Call,
    q: spec_fn(nat, Seq<u8>) -> Call,
    i: int,
    j: nat,
    out: Seq<u8>,
    changed: bool,
)
    requires
        forall|k: nat| #[trigger] query(src, rs, cfg, p, i, j, out, changed, k) is Some ==> p(k, query(src, rs, cfg, p, i, j, out, changed, k)->Some_0.1) == q(k, query(src, rs, cfg, p, i, j, out, changed, k)->Some_0.1),
    ensures
        gen_regions(src, rs, cfg, p, i, j, out, changed) == gen_regions(src, rs, cfg, q, i, j, out, changed),
    decreases rs.len() - i,
{
    if 0 <= i < rs.len() {
        match rs[i] {
            Region::Verbatim(s) => {
                let o1 = out + span_bytes(src, s);
                assert forall|k: nat| #[trigger] query(src, rs, cfg, p, i + 1, j, o1, changed, k) is Some implies p(k, query(src, rs, cfg, p, i + 1, j, o1, changed, k)->Some_0.1) == q(k, query(src, rs, cfg, p, i + 1, j, o1, changed, k)->Some_0.1) by {
                    assert(query(src, rs, cfg, p, i, j, out, changed, k) == query(src, rs, cfg, p, i + 1, j, o1, changed, k));
                }
                lemma_agree_on_queries(src, rs, cfg, p, q, i + 1, j, o1, changed);
            },
            Region::Generated { identifier, code, checksum, begin, end } => {
                let digest = blake3_of(span_bytes(src, code));
                if checksum_matches(checksum, digest) {
                    let before = out + begin_line(src, begin, identifier);
                    assert(query(src, rs, cfg, p, i, j, out, changed, j) == Some((ident_chars(src, identifier), before)));
                    assert(p(j, before) == q(j, before));
                    let call = p(j, before);
                    if let Ok((o, c)) = close_region(src, rs[i], cfg, before.len() as int, blake3_of(before), digest, call.0, call.1) {
                        let ch = changed || c;
                        assert forall|k: nat| #[trigger] query(src, rs, cfg, p, i + 1, j + 1, o, ch, k) is Some implies p(k, query(src, rs, cfg, p, i + 1, j + 1, o, ch, k)->Some_0.1) == q(k, query(src, rs, cfg, p, i + 1, j + 1, o, ch, k)->Some_0.1) by {
                            lemma_query_ident(src, rs, cfg, p, i + 1, j + 1, o, changed || c, k);
                            assert(query(src, rs, cfg, p, i, j, out, changed, k) == query(src, rs, cfg, p, i + 1, j + 1, o, changed || c, k));
                        }
                        lemma_agree_on_queries(src, rs, cfg, p, q, i + 1, j + 1, o, changed || c);
                    }
                }
            },
        }
    }
}

pub open spec fn has_generated(rs: Seq<Region>) -> bool {
    exists|k: int| 0 <= k < rs.len() && rs[k] is Generated
}

/// The regenerated bytes of `src`, where the producer's calls do what `p` says:
/// `None` where nothing changed.
pub open spec fn generate_bytes(src: Seq<u8>, cfg: Config, p: spec_fn(nat, Seq<u8>) -> Call) -> Result<Option<Seq<u8>>, Gen_Error> {
    match parse_spec(src) {
        Err(e) => Err(Gen_Error::FIND(e)),
        Ok(rs) => if !has_generated(rs) {
            Ok(None)
        } else {
            match gen_regions(src, rs, cfg, p, 0, 0, Seq::empty(), false) {
                Err(e) => Err(e),
                Ok((out, changed)) => if changed {
                    Ok(Some(out))
                } else {
                    Ok(None)
                },
            }
        },
    }
}

/// What `generate` returns, where the producer's calls do what `p` says.
pub open spec fn generate_spec(src: Seq<u8>, cfg: Config, p: spec_fn(nat, Seq<u8>) -> Call) -> Result<Option<Seq<char>>, Gen_Error> {
    match generate_bytes(src, cfg, p) {
        Ok(Some(b)) => if valid_utf8(b) {
            Ok(Some(decode_utf8(b)))
        } else {
            Err(Gen_Error::NOT_UTF8)
        },
        Ok(None) => Ok(None),
        Err(e) => Err(e),
    }
}

pub open spec fn text_result(r: Result<Option<String>, Gen_Error>) -> Result<Option<Seq<char>>, Gen_Error> {
    match r {
        Ok(Some(s)) => Ok(Some(s@)),
        Ok(None) => Ok(None),
        Err(e) => Err(e),
    }
}

fn append_bytes(out: &mut Vec<u8>, b: &[u8])
    ensures
        final(out)@ == old(out)@ + b@,
{
    let mut i: usize = 0;
    while i < b.len()
        invariant
            i <= b@.len(),
            out@ == old(out)@ + b@.subrange(0, i as int),
        decreases b@.len() - i,
    {
        out.push(b[i]);
        i = i + 1;
        assert(out@ =~= old(out)@ + b@.subrange(0, i as int));
    }
    assert(b@.subrange(0, i as int) =~= b@);
}

fn append_span(out: &mut Vec<u8>, src: &[u8], s: Span)
    requires
        span_in(src@, s),
    ensures
        final(out)@ == old(out)@ + span_bytes(src@, s),
{
    append_bytes(out, vstd::slice::slice_subrange(src, s.start, s.end));
}

fn append_spaces(out: &mut Vec<u8>, n: usize)
    ensures
        final(out)@ == old(out)@ + spaces(n as nat),
{
    let mut i: usize = 0;
    while i < n
        invariant
            i <= n,
            out@ == old(out)@ + spaces(i as nat),
        decreases n - i,
    {
        out.push(32u8);
        i = i + 1;
        assert(out@ =~= old(out)@ + spaces(i as nat));
    }
}

fn same_digest(a: &[u8; 32], b: &[u8; 32]) -> (r: bool)
    ensures
        r == (a@ == b@),
{
    let mut i: usize = 0;
    while i < 32
        invariant
            i <= 32,
            a@.len() == 32,
            b@.len() == 32,
            forall|k: int| 0 <= k < i ==> a@[k] == b@[k],
        decreases 32 - i,
    {
        if a[i] != b[i] {
            return false;
        }
        i = i + 1;
    }
    assert(a@ =~= b@);
    true
}

/// The digest of `code`, where the stored checksum `loaded_checksam` is a
/// prefix of it; else the error holding that digest.
pub fn check_code_checksum(code: &[u8], loaded_checksam: &ArrayVec<u8, 32>) -> (r: Result<[u8; 32], Gen_Error>)
    ensures
        match r {
            Ok(d) => d == blake3_of(code@) && checksum_matches(stored_bytes(*loaded_checksam), d),
            Err(e) => e == Gen_Error::WRONG_CHECKSUM(blake3_of(code@))
                && !checksum_matches(stored_bytes(*loaded_checksam), blake3_of(code@)),
        },
{
    let actual = hash_of(code);
    let stored = checksum_slice(loaded_checksam);
    let mut i: usize = 0;
    while i < stored.len()
        invariant
            i <= stored@.len() <= 32,
            actual@.len() == 32,
            actual == blake3_of(code@),
            stored@ == stored_bytes(*loaded_checksam),
            forall|k: int| 0 <= k < i ==> stored@[k] == actual@[k],
        decreases stored@.len() - i,
    {
        if stored[i] != actual[i] {
            assert(actual@.subrange(0, stored@.len() as int)[i as int] != stored@[i as int]);
            return Err(Gen_Error::WRONG_CHECKSUM(actual));
        }
        i = i + 1;
    }
    assert(stored@ =~= actual@.subrange(0, stored@.len() as int));
    Ok(actual)
}

/// Puts a region's code after `start`: for `USE`, what the producer appended
/// there, ending in a line break and indented by `n`; for `IGNORE`, the old code.
fn place_code(src: &[u8], code: Span, out: &mut Vec<u8>, start: usize, u: Usage, n: usize) -> (r: Result<(), Gen_Error>)
    requires
        span_in(src@, code),
        start <= old(out)@.len(),
    ensures
        ({
            let t = with_tailing_linebreak(old(out)@.subrange(start as int, old(out)@.len() as int), 10u8);
            if u == Usage::USE && start + t.len() + opened_lines(t, 0, t.len() as int, 10u8) * n > usize::MAX {
                r == Err::<(), Gen_Error>(Gen_Error::TOO_LARGE)
            } else {
                &&& r is Ok
                &&& final(out)@ == old(out)@.subrange(0, start as int) + if u == Usage::USE {
                    indent_bytes(t, n as nat)
                } else {
                    span_bytes(src@, code)
                }
            }
        }),
{
    let ghost after = out@;
    match u {
        Usage::USE => {
            if out.len() > start && out[out.len() - 1] != 10u8 {
                out.push(10u8);
            }
            proof {
                let t = after.subrange(start as int, after.len() as int);
                assert(out@.subrange(start as int, out@.len() as int) =~= with_tailing_linebreak(t, 10u8));
                assert(out@.subrange(0, start as int) =~= after.subrange(0, start as int));
            }
            match indent_growth(out, start, n) {
                None => {
                    return Err(Gen_Error::TOO_LARGE);
                },
                Some(_) => {},
            }
            indent_subrange(out, start, n);
        },
        Usage::IGNORE => {
            out.truncate(start);
            append_span(out, src, code);
        },
    }
    Ok(())
}

/// Writes the end marker line, with the first `m` bytes of `digest` in hex as
/// its checksum field.
fn write_end_line(out: &mut Vec<u8>, src: &[u8], end: Marker, digest: &[u8; 32], m: usize)
    requires
        span_in(src@, end.before_marker),
        span_in(src@, end.after_marker),
        m <= 32,
    ensures
        final(out)@ == old(out)@ + end_line(src@, end, hex_lower(digest@.subrange(0, m as int))),
{
    let end_tok: [u8; 11] = [60, 60, 32, 47, 99, 111, 100, 101, 103, 101, 110];
    assert(end_tok@ =~= end_token());
    append_spaces(out, end.indentation.0);
    append_span(out, src, end.before_marker);
    append_bytes(out, &end_tok);
    out.push(32u8);
    let ghost o2 = out@;
    if m > 0 {
        push_hex(out, digest, m);
        out.push(32u8);
    }
    proof {
        let hex = hex_lower(digest@.subrange(0, m as int));
        crate::checksum::lemma_hex_lower_len(digest@.subrange(0, m as int));
        if m > 0 {
            assert(out@ =~= o2 + (hex + seq![32u8]));
        } else {
            assert(hex =~= Seq::<u8>::empty());
            assert(out@ =~= o2);
        }
    }
    out.push(62u8);
    out.push(62u8);
    append_span(out, src, end.after_marker);
    out.push(10u8);
    proof {
        let hex = hex_lower(digest@.subrange(0, m as int));
        assert(out@ =~= old(out)@ + end_line(src@, end, hex));
    }
}

/// Finishes a generated region after its producer ran and returned `res`,
/// `out` being the buffer the producer left: checks that the output before
/// `start` kept its digest `guard`, puts in the region's code (the producer's
/// text, ending in a line break and indented like the begin marker line, or the
/// old code), and writes the end marker line with the new checksum. Returns
/// whether the region changed.
pub fn finish_region(
    src: &[u8],
    section: &Section,
    cfg: Config,
    out: &mut Vec<u8>,
    start: usize,
    guard: &[u8; 32],
    old_digest: &[u8; 32],
    res: Fmt_Result,
) -> (r: Result<bool, Gen_Error>)
    requires
        region_wf(src@, section@),
        section@ is Generated,
        cfg.checksum_bytes_to_store <= 32,
    ensures
        match r {
            Ok(c) => close_region(src@, section@, cfg, start as int, *guard, *old_digest, res, old(out)@)
                == Ok::<(Seq<u8>, bool), Gen_Error>((final(out)@, c)),
            Err(e) => close_region(src@, section@, cfg, start as int, *guard, *old_digest, res, old(out)@)
                == Err::<(Seq<u8>, bool), Gen_Error>(e),
        },
{
    let (code, checksum, begin, end) = match section {
        Section::CODEGEN { code, checksum, begin, end, .. } => (*code, checksum, *begin, *end),
        Section::HANDWRITTEN(_) => {
            return Ok(false);
        },
    };
    let u = match res {
        Err(e) => {
            return Err(Gen_Error::FMT(e));
        },
        Ok(u) => u,
    };
    let ghost after = out@;
    if out.len() < start {
        return Err(Gen_Error::FORBIDDEN);
    }
    let now = hash_of(vstd::slice::slice_subrange(out.as_slice(), 0, start));
    if !same_digest(&now, guard) {
        return Err(Gen_Error::FORBIDDEN);
    }
    let n = begin.indentation.0;
    place_code(src, code, out, start, u, n)?;
    let ghost t = with_tailing_linebreak(after.subrange(start as int, after.len() as int), 10u8);
    let ghost body = if u == Usage::USE { indent_bytes(t, n as nat) } else { span_bytes(src@, code) };
    assert(out@ == after.subrange(0, start as int) + body);
    assert(out@.subrange(start as int, out@.len() as int) =~= body);
    assert(out@.subrange(0, start as int) =~= after.subrange(0, start as int));
    let digest = hash_of(vstd::slice::slice_subrange(out.as_slice(), start, out.len()));
    let stored = checksum_slice(checksum).len();
    let m = cfg.checksum_bytes_to_store as usize;
    write_end_line(out, src, end, &digest, m);
    Ok(m != stored || !same_digest(&digest, old_digest))
}

/// Checks a generated region's code against its stored checksum and writes its
/// begin marker line. Returns the code's digest.
pub fn open_region(src: &[u8], section: &Section, out: &mut Vec<u8>) -> (r: Result<[u8; 32], Gen_Error>)
    requires
        region_wf(src@, section@),
    ensures
        match section@ {
            Region::Generated { identifier, code, checksum, begin, .. } => match r {
                Ok(d) => d == blake3_of(span_bytes(src@, code)) && checksum_matches(checksum, d)
                    && final(out)@ == old(out)@ + begin_line(src@, begin, identifier),
                Err(e) => e == Gen_Error::WRONG_CHECKSUM(blake3_of(span_bytes(src@, code)))
                    && !checksum_matches(checksum, blake3_of(span_bytes(src@, code))),
            },
            Region::Verbatim(_) => r is Ok && final(out)@ == old(out)@,
        },
{
    match section {
        Section::HANDWRITTEN(_) => Ok([0u8; 32]),
        Section::CODEGEN { identifier, code, checksum, begin, .. } => {
            let digest = check_code_checksum(vstd::slice::slice_subrange(src, code.start, code.end), checksum)?;
            let begin_tok: [u8; 11] = [60, 60, 32, 99, 111, 100, 101, 103, 101, 110, 32];
            let close_tok: [u8; 3] = [32, 62, 62];
            assert(begin_tok@ =~= begin_token());
            assert(close_tok@ =~= seq![32u8, 62u8, 62u8]);
            append_spaces(out, begin.indentation.0);
            append_span(out, src, begin.before_marker);
            append_bytes(out, &begin_tok);
            append_span(out, src, *identifier);
            append_bytes(out, &close_tok);
            append_span(out, src, begin.after_marker);
            out.push(10u8);
            assert(out@ =~= old(out)@ + begin_line(src@, *begin, *identifier));
            Ok(digest)
        },
    }
}

/// The identifier's bytes, which are ASCII, as text.
fn identifier_text(src: &[u8], sp: Span) -> (r: String)
    requires
        span_in(src@, sp),
    ensures
        r@ == span_bytes(src@, sp).map_values(|b: u8| b as char),
{
    let mut r = String::new();
    let mut k = sp.start;
    while k < sp.end
        invariant
            sp.start <= k <= sp.end <= src@.len(),
            r@ == src@.subrange(sp.start as int, k as int).map_values(|b: u8| b as char),
        decreases sp.end - k,
    {
        push_char(&mut r, src[k] as char);
        k = k + 1;
        assert(r@ =~= src@.subrange(sp.start as int, k as int).map_values(|b: u8| b as char));
    }
    r
}

/// Relies on `String::from_utf8`: it succeeds exactly on valid UTF-8, and the
/// text then holds the chars that the bytes encode.
#[verifier::external_body]
fn string_from_utf8(v: Vec<u8>) -> (r: Option<String>)
    ensures
        r is Some <==> valid_utf8(v@),
        r matches Some(s) ==> s@ == decode_utf8(v@),
{
    String::from_utf8(v).ok()
}

fn has_codegen(sections: &Vec<Section>) -> (r: bool)
    ensures
        r == has_generated(sections@.map_values(|x: Section| x@)),
{
    let ghost rs = sections@.map_values(|x: Section| x@);
    let mut i: usize = 0;
    while i < sections.len()
        invariant
            i <= sections@.len(),
            rs == sections@.map_values(|x: Section| x@),
            forall|k: int| 0 <= k < i ==> !(rs[k] is Generated),
        decreases sections@.len() - i,
    {
        if let Section::CODEGEN { .. } = &sections[i] {
            assert(rs[i as int] is Generated);
            return true;
        }
        i = i + 1;
    }
    false
}

/// Whether `p` does on its first calls what `calls` records, whatever buffer it
/// is given.
pub open spec fn agrees(p: spec_fn(nat, Seq<u8>) -> Call, calls: Seq<Call>) -> bool {
    forall|k: nat, b: Seq<u8>| k < calls.len() ==> #[trigger] p(k, b) == calls[k as int]
}

/// The producer behaviour that `calls` records.
pub open spec fn recorded(calls: Seq<Call>) -> spec_fn(nat, Seq<u8>) -> Call {
    |k: nat, b: Seq<u8>| if k < calls.len() {
        calls[k as int]
    } else {
        (Ok(Usage::IGNORE), b)
    }
}

/// One producer call: the producer as it was, the identifier it received (as
/// chars), the buffer it received, the buffer it handed back, and what it
/// returned.
pub type Record<F> = (F, Seq<char>, Vec<u8>, Vec<u8>, Fmt_Result);

/// The call outcomes that a record holds.
pub open spec fn record_calls<F>(rec: Seq<Record<F>>) -> Seq<Call> {
    rec.map_values(|c: Record<F>| (c.4, c.3@))
}

/// The call is one that the producer's contract admits.
pub open spec fn called<F: FnMut(&str, Vec<u8>) -> (Vec<u8>, Fmt_Result)>(c: Record<F>) -> bool {
    exists|i: &str| #[trigger] call_ensures(c.0, (i, c.2), (c.3, c.4)) && i@ == c.1
}

/// `r` is what `generate` gives on `src` where the producer's calls are those of
/// `rec`: each one admitted by the producer's contract, made with the
/// identifier and buffer that the regeneration hands to that call, and no
/// other call made.
pub open spec fn run_matches<F: FnMut(&str, Vec<u8>) -> (Vec<u8>, Fmt_Result)>(
    src: Seq<u8>,
    cfg: Config,
    rec: Seq<Record<F>>,
    r: Result<Option<Seq<char>>, Gen_Error>,
) -> bool {
    let p = recorded(record_calls(rec));
    &&& r == generate_spec(src, cfg, p)
    &&& forall|k: int| 0 <= k < rec.len() ==> called(#[trigger] rec[k])
    &&& forall|k: nat| #[trigger] call_query(src, cfg, p, k) == if k < rec.len() {
        Some((rec[k as int].1, rec[k as int].2@))
    } else {
        None::<(Seq<char>, Seq<u8>)>
    }
}

/// The model facts the regeneration loop keeps, for every producer behaviour
/// `p` that agrees with the calls made so far.
pub open spec fn loop_state<F>(
    src: Seq<u8>,
    rs: Seq<Region>,
    cfg: Config,
    rec: Seq<Record<F>>,
    p: spec_fn(nat, Seq<u8>) -> Call,
    i: int,
    out: Seq<u8>,
    changed: bool,
) -> bool {
    &&& gen_regions(src, rs, cfg, p, 0, 0, Seq::empty(), false) == gen_regions(src, rs, cfg, p, i, rec.len(), out, changed)
    &&& forall|k: nat| #[trigger] query(src, rs, cfg, p, 0, 0, Seq::empty(), false, k) == if k < rec.len() {
        Some((rec[k as int].1, rec[k as int].2@))
    } else {
        query(src, rs, cfg, p, i, rec.len(), out, changed, k)
    }
}

fn generate_recorded<F>(input: &str, cfg: Config, f: F) -> (r: (Result<Option<String>, Gen_Error>, Ghost<Seq<Record<F>>>))
    where
        F: FnMut(&str, Vec<u8>) -> (Vec<u8>, Fmt_Result),
    requires
        cfg.checksum_bytes_to_store <= 32,
        forall|i: &str, b: Vec<u8>| call_requires(f, (i, b)),
    ensures
        run_matches(input.spec_bytes(), cfg, r.1@, text_result(r.0)),
{
    let mut f = f;
    let src = input.as_bytes();
    let ghost s = src@;
    let ghost mut rec: Seq<Record<F>> = Seq::empty();
    let sections = match parse(input) {
        Ok(x) => x,
        Err(e) => {
            assert(record_calls(rec) =~= Seq::<Call>::empty());
            assert(run_matches(s, cfg, rec, text_result(Err(Gen_Error::FIND(e)))));
            return (Err(Gen_Error::FIND(e)), Ghost(rec));
        },
    };
    let ghost rs = sections@.map_values(|x: Section| x@);
    let len = src.len();
    proof {
        lemma_sections_wf(s, 0, 0);
    }
    if !has_codegen(&sections) {
        assert(record_calls(rec) =~= Seq::<Call>::empty());
        assert(run_matches(s, cfg, rec, text_result(Ok(None))));
        return (Ok(None), Ghost(rec));
    }
    let mut out: Vec<u8> = Vec::with_capacity(src.len());
    let mut changed = false;
    let mut i: usize = 0;
    proof {
        assert(record_calls(rec) =~= Seq::<Call>::empty());
    }
    while i < sections.len()
        invariant
            s == src@,
            s == input.spec_bytes(),
            rs == sections@.map_values(|x: Section| x@),
            parse_spec(s) == Ok::<Seq<Region>, Parse_Error>(rs),
            has_generated(rs),
            forall|k: int| 0 <= k < rs.len() ==> region_wf(s, #[trigger] rs[k]),
            cfg.checksum_bytes_to_store <= 32,
            i <= sections@.len(),
            forall|p: spec_fn(nat, Seq<u8>) -> Call| agrees(p, record_calls(rec)) ==> loop_state(s, rs, cfg, rec, p, i as int, out@, changed),
            forall|k: int| 0 <= k < rec.len() ==> called(#[trigger] rec[k]),
            forall|i: &str, b: Vec<u8>| call_requires(f, (i, b)),
        decreases sections@.len() - i,
    {
        assert(rs[i as int] == sections[i as int]@);
        match &sections[i] {
            Section::HANDWRITTEN(sp) => {
                let ghost out0 = out@;
                append_span(&mut out, src, *sp);
                proof {
                    assert forall|p: spec_fn(nat, Seq<u8>) -> Call| agrees(p, record_calls(rec)) implies loop_state(s, rs, cfg, rec, p, i + 1, out@, changed) by {
                        assert(loop_state(s, rs, cfg, rec, p, i as int, out0, changed));
                        assert forall|k: nat| #[trigger] query(s, rs, cfg, p, 0, 0, Seq::empty(), false, k) == if k < rec.len() {
                            Some((rec[k as int].1, rec[k as int].2@))
                        } else {
                            query(s, rs, cfg, p, i + 1, rec.len(), out@, changed, k)
                        } by {
                            assert(query(s, rs, cfg, p, i as int, rec.len(), out0, changed, k) == query(s, rs, cfg, p, i + 1, rec.len(), out@, changed, k));
                        }
                    }
                }
            },
            Section::CODEGEN { identifier, .. } => {
                let ghost out0 = out@;
                let old_digest = match open_region(src, &sections[i], &mut out) {
                    Ok(d) => d,
                    Err(e) => {
                        let ghost p = recorded(record_calls(rec));
                        proof {
                            assert(agrees(p, record_calls(rec)));
                            assert(loop_state(s, rs, cfg, rec, p, i as int, out0, changed));
                            assert forall|k: nat| #[trigger] call_query(s, cfg, p, k) == if k < rec.len() {
                                Some((rec[k as int].1, rec[k as int].2@))
                            } else {
                                None::<(Seq<char>, Seq<u8>)>
                            } by {
                                assert(call_query(s, cfg, p, k) == query(s, rs, cfg, p, 0, 0, Seq::empty(), false, k));
                            }
                        }
                        assert(run_matches(s, cfg, rec, text_result(Err(e))));
                        return (Err(e), Ghost(rec));
                    },
                };
                let start = out.len();
                let guard = hash_of(out.as_slice());
                let name = identifier_text(src, *identifier);
                let ns = name.as_str();
                let ghost before = out;
                let ghost g = f;
                let (after, res) = f(ns, out);
                out = after;
                let ghost c0: Record<F> = (g, ns@, before, out, res);
                let ghost call: Call = (res, out@);
                let ghost nrec = rec.push(c0);
                proof {
                    assert(call_ensures(c0.0, (ns, c0.2), (c0.3, c0.4)));
                    assert(called(c0));
                    assert(record_calls(nrec) =~= record_calls(rec).push(call));
                }
                let ghost after_call = out@;
                let c = match finish_region(src, &sections[i], cfg, &mut out, start, &guard, &old_digest, res) {
                    Ok(c) => c,
                    Err(e) => {
                        let ghost p = recorded(record_calls(nrec));
                        proof {
                            assert(agrees(p, record_calls(nrec)));
                            assert(agrees(p, record_calls(rec)));
                            assert(p(rec.len(), before@) == call);
                            assert(loop_state(s, rs, cfg, rec, p, i as int, out0, changed));
                            assert forall|k: int| 0 <= k < nrec.len() implies called(#[trigger] nrec[k]) by {
                                if k < rec.len() {
                                    assert(nrec[k] == rec[k]);
                                }
                            }
                            assert forall|k: nat| #[trigger] call_query(s, cfg, p, k) == if k < nrec.len() {
                                Some((nrec[k as int].1, nrec[k as int].2@))
                            } else {
                                None::<(Seq<char>, Seq<u8>)>
                            } by {
                                assert(call_query(s, cfg, p, k) == query(s, rs, cfg, p, 0, 0, Seq::empty(), false, k));
                                if k < rec.len() {
                                    assert(nrec[k as int] == rec[k as int]);
                                }
                            }
                        }
                        assert(run_matches(s, cfg, nrec, text_result(Err(e))));
                        return (Err(e), Ghost(nrec));
                    },
                };
                proof {
                    assert forall|p: spec_fn(nat, Seq<u8>) -> Call| agrees(p, record_calls(nrec)) implies loop_state(s, rs, cfg, nrec, p, i + 1, out@, changed || c) by {
                        assert(agrees(p, record_calls(rec)));
                        assert(p(rec.len(), before@) == call);
                        assert(loop_state(s, rs, cfg, rec, p, i as int, out0, changed));
                        assert forall|k: nat| #[trigger] query(s, rs, cfg, p, 0, 0, Seq::empty(), false, k) == if k < nrec.len() {
                            Some((nrec[k as int].1, nrec[k as int].2@))
                        } else {
                            query(s, rs, cfg, p, i + 1, nrec.len(), out@, changed || c, k)
                        } by {
                            if k < rec.len() {
                                assert(nrec[k as int] == rec[k as int]);
                            }
                        }
                    }
                    assert forall|k: int| 0 <= k < nrec.len() implies called(#[trigger] nrec[k]) by {
                        if k < rec.len() {
                            assert(nrec[k] == rec[k]);
                        }
                    }
                    rec = nrec;
                }
                changed = changed || c;
            },
        }
        i = i + 1;
    }
    let ghost p = recorded(record_calls(rec));
    proof {
        assert(agrees(p, record_calls(rec)));
        assert(loop_state(s, rs, cfg, rec, p, i as int, out@, changed));
        assert forall|k: nat| #[trigger] call_query(s, cfg, p, k) == if k < rec.len() {
            Some((rec[k as int].1, rec[k as int].2@))
        } else {
            None::<(Seq<char>, Seq<u8>)>
        } by {
            assert(call_query(s, cfg, p, k) == query(s, rs, cfg, p, 0, 0, Seq::empty(), false, k));
        }
    }
    if !changed {
        assert(run_matches(s, cfg, rec, text_result(Ok(None))));
        return (Ok(None), Ghost(rec));
    }
    let r = match string_from_utf8(out) {
        Some(t) => Ok(Some(t)),
        None => Err(Gen_Error::NOT_UTF8),
    };
    assert(run_matches(s, cfg, rec, text_result(r)));
    (r, Ghost(rec))
}

/// Regenerates the generated regions of `input`, calling `f` once per region,
/// in order, with the region's identifier and the output buffer up to and with
/// the region's begin marker line. `f` hands the buffer back, having appended
/// to it, and says whether what it appended replaces the region's code.
/// Returns the new text, or `None` where no region changed (nor the length of
/// its stored checksum), or where `input` has no region.
///
/// The result is what `generate_spec` gives for the calls that were made, each
/// one admitted by `f`'s contract; where that contract fixes each outcome as
/// `d` of the identifier and buffer, the result is `generate_spec` of `d`.
pub fn generate<F>(input: &str, cfg: Config, f: F) -> (r: Result<Option<String>, Gen_Error>)
    where
        F: FnMut(&str, Vec<u8>) -> (Vec<u8>, Fmt_Result),
    requires
        cfg.checksum_bytes_to_store <= 32,
        forall|i: &str, b: Vec<u8>| call_requires(f, (i, b)),
    ensures
        exists|rec: Seq<Record<F>>| run_matches(input.spec_bytes(), cfg, rec, text_result(r)),
        forall|d: spec_fn(Seq<char>, Seq<u8>) -> Call| determines(f, d)
            ==> text_result(r) == generate_spec(input.spec_bytes(), cfg, by_ident(input.spec_bytes(), d)),
{
    let (r, Ghost(rec)) = generate_recorded(input, cfg, f);
    proof {
        let src = input.spec_bytes();
        assert forall|d: spec_fn(Seq<char>, Seq<u8>) -> Call| determines(f, d) implies text_result(r) == generate_spec(src, cfg, by_ident(src, d)) by {
            lemma_determined_run(f, src, cfg, rec, d);
        }
    }
    r
}

/// Where the producer's contract fixes each outcome as `d`, a run whose calls
/// `rec` records gives what `generate_spec` gives for `d`.
pub proof fn lemma_determined_run<F: FnMut(&str, Vec<u8>) -> (Vec<u8>, Fmt_Result)>(
    f: F,
    src: Seq<u8>,
    cfg: Config,
    rec: Seq<Record<F>>,
    d: spec_fn(Seq<char>, Seq<u8>) -> Call,
)
    requires
        determines(f, d),
        run_matches(src, cfg, rec, generate_spec(src, cfg, recorded(record_calls(rec)))),
    ensures
        generate_spec(src, cfg, recorded(record_calls(rec))) == generate_spec(src, cfg, by_ident(src, d)),
{
    let p = recorded(record_calls(rec));
    let q = by_ident(src, d);
    if let Ok(rs) = parse_spec(src) {
        if has_generated(rs) {
            assert forall|k: nat| #[trigger] query(src, rs, cfg, p, 0, 0, Seq::empty(), false, k) is Some implies
                p(k, query(src, rs, cfg, p, 0, 0, Seq::empty(), false, k)->Some_0.1) == q(k, query(src, rs, cfg, p, 0, 0, Seq::empty(), false, k)->Some_0.1) by {
                assert(call_query(src, cfg, p, k) == query(src, rs, cfg, p, 0, 0, Seq::empty(), false, k));
                let c = rec[k as int];
                assert(called(c));
                let i = choose|i: &str| #[trigger] call_ensures(c.0, (i, c.2), (c.3, c.4)) && i@ == c.1;
                assert((c.4, c.3@) == d(c.1, c.2@));
                lemma_query_ident(src, rs, cfg, p, 0, 0, Seq::empty(), false, k);
                assert(record_calls(rec)[k as int] == (c.4, c.3@));
            }
            lemma_agree_on_queries(src, rs, cfg, p, q, 0, 0, Seq::empty(), false);
        }
    }
}

} // verus!
