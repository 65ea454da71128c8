use vstd::prelude::*;

use crate::checksum::{blake3_of, hex_char, hex_lower};
use crate::parse_file::parser::line::{is_alnum, is_hex};
use crate::parse_file::parser::{hex_decode, hex_value};
use crate::gen::{
    checksum_matches, close_region, gen_regions, generate_bytes, generate_spec, has_generated,
    span_bytes, begin_line, Call, Config, Gen_Error, Usage,
};
use crate::indentation::{indent_bytes, with_tailing_linebreak};
use crate::parse_file::parser::parse_spec;
use crate::parse_file::Region;

verus! {

/// How many of `rs[..i]` are generated regions: the number of producer calls
/// made before region `i`.
pub open spec fn gen_index(rs: Seq<Region>, i: int) -> nat
    decreases i,
{
    if i <= 0 {
        0
    } else {
        gen_index(rs, i - 1) + if rs[i - 1] is Generated {
            1nat
        } else {
            0nat
        }
    }
}

/// The region's stored checksum is a prefix of its code's digest (true of a
/// verbatim region).
pub open spec fn intact(src: Seq<u8>, r: Region) -> bool {
    match r {
        Region::Generated { code, checksum, .. } => checksum_matches(checksum, blake3_of(span_bytes(src, code))),
        Region::Verbatim(_) => true,
    }
}

/// The region stores a checksum of another length than `cfg` asks for.
pub open spec fn length_differs(cfg: Config, r: Region) -> bool {
    match r {
        Region::Generated { checksum, .. } => cfg.checksum_bytes_to_store != checksum.len(),
        Region::Verbatim(_) => false,
    }
}

/// Some region from `i` on stores a checksum of another length than `cfg`
/// asks for.
pub open spec fn some_length_differs(rs: Seq<Region>, cfg: Config, i: int) -> bool {
    exists|k: int| i <= k < rs.len() && length_differs(cfg, #[trigger] rs[k])
}

/// The code that a producer's call puts in region `r`: the old code, or for
/// `USE` the appended text `t` ending in a line break and indented.
pub open spec fn placed_code(src: Seq<u8>, r: Region, u: Usage, t: Seq<u8>) -> Seq<u8> {
    match r {
        Region::Generated { code, begin, .. } => if u == Usage::USE {
            indent_bytes(with_tailing_linebreak(t, 10u8), begin.indentation.0 as nat)
        } else {
            span_bytes(src, code)
        },
        Region::Verbatim(s) => span_bytes(src, s),
    }
}

/// Every call `j` of `p` succeeds and only appends to the buffer it is given.
pub open spec fn only_appends(p: spec_fn(nat, Seq<u8>) -> Call) -> bool {
    forall|j: nat, b: Seq<u8>| {
        let c = #[trigger] p(j, b);
        c.0 is Ok && c.1.len() >= b.len() && c.1.subrange(0, b.len() as int) == b
    }
}

/// `p` only appends, and on each generated region the code it puts in is the
/// region's old code.
pub open spec fn keeps_code(src: Seq<u8>, rs: Seq<Region>, p: spec_fn(nat, Seq<u8>) -> Call) -> bool {
    &&& only_appends(p)
    &&& forall|k: int, b: Seq<u8>|
        0 <= k < rs.len() && rs[k] is Generated ==> {
            let c = #[trigger] p(gen_index(rs, k), b);
            placed_code(src, rs[k], c.0->Ok_0, c.1.subrange(b.len() as int, c.1.len() as int))
                == span_bytes(src, rs[k]->Generated_code)
        }
}

/// `p` never returns `USE`.
pub open spec fn never_uses(p: spec_fn(nat, Seq<u8>) -> Call) -> bool {
    forall|j: nat, b: Seq<u8>| (#[trigger] p(j, b)).0 != Ok::<Usage, std::fmt::Error>(Usage::USE)
}

pub proof fn lemma_unchanged_regions(
    src: Seq<u8>,
    rs: Seq<Region>,
    cfg: Config,
    p: spec_fn(nat, Seq<u8>) -> Call,
    i: int,
    out: Seq<u8>,
    changed: bool,
)
    requires
        0 <= i <= rs.len(),
        keeps_code(src, rs, p),
        forall|k: int| 0 <= k < rs.len() ==> intact(src, #[trigger] rs[k]),
    ensures
        ({
            let r = gen_regions(src, rs, cfg, p, i, gen_index(rs, i), out, changed);
            &&& r == Err::<(Seq<u8>, bool), Gen_Error>(Gen_Error::TOO_LARGE) || r is Ok
            &&& r matches Ok((o, c)) ==> c == (changed || some_length_differs(rs, cfg, i))
            &&& never_uses(p) ==> r is Ok
        }),
    decreases rs.len() - i,
{
    if i < rs.len() {
        assert(intact(src, rs[i]));
        assert(gen_index(rs, i + 1) == gen_index(rs, i) + if rs[i] is Generated { 1nat } else { 0nat });
        match rs[i] {
            Region::Verbatim(s) => {
                lemma_unchanged_regions(src, rs, cfg, p, i + 1, out + span_bytes(src, s), changed);
                assert(!length_differs(cfg, rs[i]));
                if some_length_differs(rs, cfg, i) {
                    let k = choose|k: int| i <= k < rs.len() && length_differs(cfg, #[trigger] rs[k]);
                    assert(k != i);
                }
            },
            Region::Generated { identifier, code, checksum, begin, end } => {
                let j = gen_index(rs, i);
                let digest = blake3_of(span_bytes(src, code));
                let before = out + begin_line(src, begin, identifier);
                let call = p(j, before);
                let start = before.len() as int;
                assert(call.1.subrange(0, start) == before);
                let r = close_region(src, rs[i], cfg, start, blake3_of(before), digest, call.0, call.1);
                let t = call.1.subrange(start, call.1.len() as int);
                assert(placed_code(src, rs[i], call.0->Ok_0, t) == span_bytes(src, code));
                if let Ok((o, c)) = r {
                    assert(c == length_differs(cfg, rs[i]));
                    lemma_unchanged_regions(src, rs, cfg, p, i + 1, o, changed || c);
                    if some_length_differs(rs, cfg, i) && !length_differs(cfg, rs[i]) {
                        let k = choose|k: int| i <= k < rs.len() && length_differs(cfg, #[trigger] rs[k]);
                        assert(k != i);
                    }
                }
            },
        }
    }
}

/// A producer that reproduces every region's code changes nothing: where each
/// stored checksum matches its code and has the configured length, and each
/// call of the producer only appends text that, once it ends in a line break
/// and is indented like its begin marker line, is the region's old code (or
/// returns `IGNORE`), the result is `None`. The one exception is an output too
/// large to index.
pub proof fn law_reproduced_code_changes_nothing(src: Seq<u8>, cfg: Config, p: spec_fn(nat, Seq<u8>) -> Call)
    requires
        parse_spec(src) is Ok,
        forall|k: int| 0 <= k < parse_spec(src)->Ok_0.len() ==> intact(src, #[trigger] parse_spec(src)->Ok_0[k]),
        forall|k: int| 0 <= k < parse_spec(src)->Ok_0.len() ==> !length_differs(cfg, #[trigger] parse_spec(src)->Ok_0[k]),
        keeps_code(src, parse_spec(src)->Ok_0, p),
    ensures
        generate_spec(src, cfg, p) == Ok::<Option<Seq<char>>, Gen_Error>(None)
            || generate_spec(src, cfg, p) == Err::<Option<Seq<char>>, Gen_Error>(Gen_Error::TOO_LARGE),
{
    let rs = parse_spec(src)->Ok_0;
    lemma_unchanged_regions(src, rs, cfg, p, 0, Seq::empty(), false);
    if some_length_differs(rs, cfg, 0) {
        let k = choose|k: int| 0 <= k < rs.len() && length_differs(cfg, #[trigger] rs[k]);
        assert(!length_differs(cfg, rs[k]));
    }
}

/// A producer that only appends and ignores every region changes nothing,
/// whatever it appended: where each stored checksum matches its code and has
/// the configured length, the result is `None`.
pub proof fn law_ignoring_producer_changes_nothing(src: Seq<u8>, cfg: Config, p: spec_fn(nat, Seq<u8>) -> Call)
    requires
        parse_spec(src) is Ok,
        forall|k: int| 0 <= k < parse_spec(src)->Ok_0.len() ==> intact(src, #[trigger] parse_spec(src)->Ok_0[k]),
        forall|k: int| 0 <= k < parse_spec(src)->Ok_0.len() ==> !length_differs(cfg, #[trigger] parse_spec(src)->Ok_0[k]),
        only_appends(p),
        forall|j: nat, b: Seq<u8>| (#[trigger] p(j, b)).0 == Ok::<Usage, std::fmt::Error>(Usage::IGNORE),
    ensures
        generate_spec(src, cfg, p) == Ok::<Option<Seq<char>>, Gen_Error>(None),
{
    let rs = parse_spec(src)->Ok_0;
    assert(keeps_code(src, rs, p));
    assert(never_uses(p));
    lemma_unchanged_regions(src, rs, cfg, p, 0, Seq::empty(), false);
    if some_length_differs(rs, cfg, 0) {
        let k = choose|k: int| 0 <= k < rs.len() && length_differs(cfg, #[trigger] rs[k]);
        assert(!length_differs(cfg, rs[k]));
    }
}

/// Starting to store checksums rewrites the file even where no code changes:
/// where no region stores a checksum, the configuration asks for one, and the
/// producer only appends and ignores every region, the result is new text.
pub proof fn law_new_checksum_length_rewrites(src: Seq<u8>, cfg: Config, p: spec_fn(nat, Seq<u8>) -> Call)
    requires
        parse_spec(src) is Ok,
        has_generated(parse_spec(src)->Ok_0),
        forall|k: int| 0 <= k < parse_spec(src)->Ok_0.len() && (#[trigger] parse_spec(src)->Ok_0[k]) is Generated
            ==> parse_spec(src)->Ok_0[k]->Generated_checksum.len() == 0,
        cfg.checksum_bytes_to_store > 0,
        only_appends(p),
        forall|j: nat, b: Seq<u8>| (#[trigger] p(j, b)).0 == Ok::<Usage, std::fmt::Error>(Usage::IGNORE),
    ensures
        generate_bytes(src, cfg, p) matches Ok(Some(_)),
        generate_spec(src, cfg, p) != Ok::<Option<Seq<char>>, Gen_Error>(None),
{
    let rs = parse_spec(src)->Ok_0;
    assert(keeps_code(src, rs, p));
    assert(never_uses(p));
    assert forall|k: int| 0 <= k < rs.len() implies intact(src, #[trigger] rs[k]) by {
        if rs[k] is Generated {
            assert(rs[k]->Generated_checksum =~= Seq::<u8>::empty());
            assert(blake3_of(span_bytes(src, rs[k]->Generated_code))@.subrange(0, 0) =~= Seq::<u8>::empty());
        }
    }
    lemma_unchanged_regions(src, rs, cfg, p, 0, Seq::empty(), false);
    let k = choose|k: int| 0 <= k < rs.len() && rs[k] is Generated;
    assert(length_differs(cfg, rs[k]));
}

/// Region `k` is the first generated region of `rs`.
pub open spec fn first_generated(rs: Seq<Region>, k: int) -> bool {
    &&& 0 <= k < rs.len()
    &&& rs[k] is Generated
    &&& forall|l: int| 0 <= l < k ==> (#[trigger] rs[l]) is Verbatim
}

proof fn lemma_to_first_generated(
    src: Seq<u8>,
    rs: Seq<Region>,
    cfg: Config,
    p: spec_fn(nat, Seq<u8>) -> Call,
    i: int,
    k: int,
    out: Seq<u8>,
)
    requires
        0 <= i <= k,
        first_generated(rs, k),
    ensures
        exists|o: Seq<u8>| gen_regions(src, rs, cfg, p, i, 0, out, false) == gen_regions(src, rs, cfg, p, k, 0, o, false),
    decreases k - i,
{
    if i < k {
        assert(rs[i] is Verbatim);
        let o1 = out + span_bytes(src, rs[i]->Verbatim_0);
        lemma_to_first_generated(src, rs, cfg, p, i + 1, k, o1);
        let o = choose|o: Seq<u8>| gen_regions(src, rs, cfg, p, i + 1, 0, o1, false) == gen_regions(src, rs, cfg, p, k, 0, o, false);
        assert(gen_regions(src, rs, cfg, p, i, 0, out, false) == gen_regions(src, rs, cfg, p, k, 0, o, false));
    } else {
        assert(gen_regions(src, rs, cfg, p, i, 0, out, false) == gen_regions(src, rs, cfg, p, k, 0, out, false));
    }
}

/// A region edited by hand since it was generated stops the regeneration,
/// whatever the producer does: where the stored checksum of the first
/// generated region `k` is not a prefix of its code's digest, the result is
/// the wrong-checksum error with that digest.
pub proof fn law_tampered_region_is_refused(src: Seq<u8>, cfg: Config, p: spec_fn(nat, Seq<u8>) -> Call, k: int)
    requires
        parse_spec(src) is Ok,
        first_generated(parse_spec(src)->Ok_0, k),
        !intact(src, parse_spec(src)->Ok_0[k]),
    ensures
        generate_spec(src, cfg, p) == Err::<Option<Seq<char>>, Gen_Error>(
            Gen_Error::WRONG_CHECKSUM(blake3_of(span_bytes(src, parse_spec(src)->Ok_0[k]->Generated_code))),
        ),
{
    let rs = parse_spec(src)->Ok_0;
    lemma_to_first_generated(src, rs, cfg, p, 0, k, Seq::empty());
    assert(has_generated(rs));
}

/// A producer that shortens the output below its region's start, or changes
/// the output before it (so that its digest changes), makes the regeneration
/// fail with `FORBIDDEN`: where the first generated region is intact and every
/// call of the producer succeeds but does so.
pub proof fn law_disturbing_producer_is_refused(src: Seq<u8>, cfg: Config, p: spec_fn(nat, Seq<u8>) -> Call, k: int)
    requires
        parse_spec(src) is Ok,
        first_generated(parse_spec(src)->Ok_0, k),
        intact(src, parse_spec(src)->Ok_0[k]),
        forall|j: nat, b: Seq<u8>| {
            let c = #[trigger] p(j, b);
            &&& c.0 is Ok
            &&& c.1.len() < b.len() || blake3_of(c.1.subrange(0, b.len() as int))@ != blake3_of(b)@
        },
    ensures
        generate_spec(src, cfg, p) == Err::<Option<Seq<char>>, Gen_Error>(Gen_Error::FORBIDDEN),
{
    let rs = parse_spec(src)->Ok_0;
    lemma_to_first_generated(src, rs, cfg, p, 0, k, Seq::empty());
    assert(has_generated(rs));
    let o = choose|o: Seq<u8>| gen_regions(src, rs, cfg, p, 0, 0, Seq::empty(), false) == gen_regions(src, rs, cfg, p, k, 0, o, false);
    match rs[k] {
        Region::Generated { identifier, begin, .. } => {
            let before = o + begin_line(src, begin, identifier);
            let c = p(0, before);
            assert(c.0 is Ok);
        },
        _ => {},
    }
}

/// A checksum field as the engine writes it reads back as the bytes it was
/// written from: it has two hex digits per byte, all letters or digits, and
/// decoding them gives the bytes back.
pub proof fn law_checksum_field_reads_back(b: Seq<u8>)
    ensures
        hex_lower(b).len() == 2 * b.len(),
        forall|k: int| 0 <= k < hex_lower(b).len() ==> is_hex(#[trigger] hex_lower(b)[k]) && is_alnum(hex_lower(b)[k]),
        hex_decode(hex_lower(b)) == b,
    decreases b.len(),
{
    if b.len() > 0 {
        let a = b.drop_last();
        law_checksum_field_reads_back(a);
        let x = b.last();
        let h = hex_lower(b);
        assert(h == hex_lower(a) + seq![hex_char(x / 16), hex_char(x % 16)]);
        assert(h.subrange(0, h.len() - 2) =~= hex_lower(a));
        assert(hex_value(hex_char(x / 16)) == x / 16);
        assert(hex_value(hex_char(x % 16)) == x % 16);
        assert((x / 16) * 16 + x % 16 == x);
        assert(hex_decode(h) =~= b);
        assert forall|k: int| 0 <= k < h.len() implies is_hex(#[trigger] h[k]) && is_alnum(h[k]) by {
            if k < h.len() - 2 {
                assert(h[k] == hex_lower(a)[k]);
            }
        }
    } else {
        assert(hex_decode(hex_lower(b)) =~= b);
    }
}

} // verus!
