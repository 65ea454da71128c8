use arrayvec::ArrayVec;
use codebiber::gen::{check_code_checksum, finish_region};
use codebiber::parse_file::{Parse_Error, Syntax_Error};
use codebiber::{generate, Config, Fmt_Result, Gen_Error, Usage};

const CFG: Config = Config { checksum_bytes_to_store: 0 };

/// A producer that appends `code` and uses it, or ignores the region.
fn produce(code: Option<&'static str>) -> impl FnMut(&str, Vec<u8>) -> (Vec<u8>, Fmt_Result) {
    move |_, mut out| match code {
        Some(c) => {
            out.extend_from_slice(c.as_bytes());
            (out, Ok(Usage::USE))
        },
        None => (out, Ok(Usage::IGNORE)),
    }
}

/// A producer that picks the code by the region's identifier.
fn by_name(gen: fn(&str) -> Option<String>) -> impl FnMut(&str, Vec<u8>) -> (Vec<u8>, Fmt_Result) {
    move |name, mut out| match gen(name) {
        Some(c) => {
            out.extend_from_slice(c.as_bytes());
            (out, Ok(Usage::USE))
        },
        None => (out, Ok(Usage::IGNORE)),
    }
}

#[test]
fn gen_test_trivial() {
    assert_eq!(generate("", CFG, produce(Some("abc"))).unwrap(), None);
    assert_eq!(generate("xyz", CFG, produce(Some("abc"))).unwrap(), None);
}

#[test]
fn test_simple_replace() {
    assert_eq!(generate("<< codegen foo >>\nxyz\n<< /codegen >>", CFG, produce(Some("xyz"))).unwrap(), None);
    assert_eq!(
        generate("<< codegen foo >>\nxyz\n<< /codegen >>", CFG, produce(Some("uvw"))).unwrap(),
        Some("<< codegen foo >>\nuvw\n<< /codegen >>\n".to_owned())
    );
    assert_eq!(
        generate("<< codegen foo >>\nremove me\n<< /codegen >>", CFG, produce(Some(""))).unwrap(),
        Some("<< codegen foo >>\n<< /codegen >>\n".to_owned())
    );
    assert_eq!(
        generate("abc\ndefg<< codegen foo >>hijk\nxyz\nlmnop<< /codegen >>qrst\nuvw", CFG, produce(Some("uvw"))).unwrap(),
        Some("abc\ndefg<< codegen foo >>hijk\nuvw\nlmnop<< /codegen >>qrst\nuvw".to_owned())
    );
}

#[test]
fn test_use_identifier() {
    fn gen(i: &str) -> Option<String> {
        let code = match i {
            "answer" => "42",
            "finestructure_constant" => "137",
            _ => unreachable!("{i}"),
        };
        Some(code.to_owned())
    }
    assert_eq!(
        generate("<< codegen answer >>\n<< /codegen >>\n<< codegen finestructure_constant >>\n<< /codegen >>", CFG, by_name(gen)).unwrap(),
        Some("<< codegen answer >>\n42\n<< /codegen >>\n<< codegen finestructure_constant >>\n137\n<< /codegen >>\n".to_owned())
    );
}

#[test]
fn test_check_checksum() {
    let h = *blake3::hash(b"42").as_bytes();
    assert_eq!(check_code_checksum(b"42", &ArrayVec::new()), Ok(h));
    assert_eq!(check_code_checksum(b"42", &h.iter().copied().collect()), Ok(h));
    assert_eq!(check_code_checksum(b"42", &h[0..4].iter().copied().collect()), Ok(h));
    assert_eq!(check_code_checksum(b"42", &h[1..5].iter().copied().collect()), Err(Gen_Error::WRONG_CHECKSUM(h)));
}

fn gen_checksum(n: &str) -> Option<String> {
    let x = match n {
        "empty" => "",
        "fortytwo" => "42",
        "newline" => "\n",
        "fortytwo_newline" => "42\n",
        n => unreachable!("{n}"),
    };
    Some(x.to_owned())
}

#[test]
fn gen_test_checksum() {
    let cksm = |n: u8| Config { checksum_bytes_to_store: n };

    // different lengths
    assert_eq!(generate("<< codegen empty >>\n<< /codegen >>", cksm(0), by_name(gen_checksum)).unwrap(), None);
    assert_eq!(
        generate("<< codegen empty >>\n<< /codegen af13 >>", cksm(0), by_name(gen_checksum)).unwrap(),
        Some("<< codegen empty >>\n<< /codegen >>\n".to_owned())
    );
    assert_eq!(generate("<< codegen empty >>\n<< /codegen af13 >>", cksm(2), by_name(gen_checksum)).unwrap(), None);
    assert_eq!(
        generate("<< codegen empty >>\n<< /codegen >>", cksm(2), by_name(gen_checksum)).unwrap(),
        Some("<< codegen empty >>\n<< /codegen af13 >>\n".to_owned())
    );
    assert_eq!(
        generate("<< codegen empty >>\n<< /codegen af13>>", cksm(4), by_name(gen_checksum)).unwrap(),
        Some("<< codegen empty >>\n<< /codegen af1349b9 >>\n".to_owned())
    );
    assert_eq!(
        generate("<< codegen empty >>\n<< /codegen af13>>", cksm(5), by_name(gen_checksum)).unwrap(),
        Some("<< codegen empty >>\n<< /codegen af1349b9f5 >>\n".to_owned())
    );

    // replace content
    assert_eq!(
        generate("<< codegen fortytwo >>\n<< /codegen af1349b9f5>>", cksm(5), by_name(gen_checksum)).unwrap(),
        Some("<< codegen fortytwo >>\n42\n<< /codegen a16072b1b0 >>\n".to_owned())
    );
    assert_eq!(
        generate("<< codegen empty >>\n42\n<< /codegen a16072b1b0>>", cksm(5), by_name(gen_checksum)).unwrap(),
        Some("<< codegen empty >>\n<< /codegen af1349b9f5 >>\n".to_owned())
    );

    // newline handling
    assert_eq!(
        generate("<< codegen fortytwo_newline >>\n42\n<< /codegen a16072b1>>", cksm(5), by_name(gen_checksum)).unwrap(),
        Some("<< codegen fortytwo_newline >>\n42\n<< /codegen a16072b1b0 >>\n".to_owned())
    );
    assert_eq!(
        generate("<< codegen newline >>\n<< /codegen af1349b9f5>>", cksm(5), by_name(gen_checksum)).unwrap(),
        Some("<< codegen newline >>\n\n<< /codegen 295192ea1e >>\n".to_owned())
    );

    // an identifier must start with a letter or an underscore
    assert_eq!(
        generate("<< codegen 42 >>\n<< /codegen af1349b9f5>>", cksm(5), by_name(gen_checksum)),
        Err(Gen_Error::FIND(Parse_Error::SYNTAX(Syntax_Error { offset: 0 })))
    );
    assert_eq!(
        generate("<< codegen 42_newline >>\n42\n<< /codegen a16072b1>>", cksm(5), by_name(gen_checksum)),
        Err(Gen_Error::FIND(Parse_Error::SYNTAX(Syntax_Error { offset: 0 })))
    );

    // dirty flag kept over later regions
    assert_eq!(
        generate("<< codegen empty >>\n<< /codegen af13 >>\n<< codegen empty >>\n<< /codegen >>", cksm(0), by_name(gen_checksum)).unwrap(),
        Some("<< codegen empty >>\n<< /codegen >>\n<< codegen empty >>\n<< /codegen >>\n".to_owned())
    );

    // max length
    assert_eq!(
        generate("<< codegen empty >>\n<< /codegen af13>>", cksm(32), by_name(gen_checksum)).unwrap(),
        Some("<< codegen empty >>\n<< /codegen af1349b9f5f9a1a6a0404dea36dcc9499bcb25c9adc112b7cc9a93cae41f3262 >>\n".to_owned())
    );
    assert_eq!(
        generate("<< codegen empty >>\n<< /codegen af1349b9f5f9a1a6a0404dea36dcc9499bcb25c9adc112b7cc9a93cae41f3262>>", cksm(2), by_name(gen_checksum)).unwrap(),
        Some("<< codegen empty >>\n<< /codegen af13 >>\n".to_owned())
    );
}

#[test]
fn test_indentation() {
    assert_eq!(
        generate("<< codegen x >>\n<< /codegen >>", CFG, produce(Some("42\n137\n1337"))).unwrap(),
        Some("<< codegen x >>\n42\n137\n1337\n<< /codegen >>\n".to_owned())
    );
    assert_eq!(
        generate("  << codegen x >>\n<< /codegen >>", CFG, produce(Some("42\n137\n1337"))).unwrap(),
        Some("  << codegen x >>\n  42\n  137\n  1337\n<< /codegen >>\n".to_owned())
    );
}

#[test]
fn allow_skipping_sections() {
    assert_eq!(generate("<< codegen x >>\nxyuz\nuv\n<< /codegen >>", CFG, produce(None)).unwrap(), None);
    assert_eq!(
        generate("  << codegen x >>\nxyuz\n  <>\n    []\nuv\n<< /codegen >>", CFG, produce(None)).unwrap(),
        None
    );
}

#[test]
fn finish_region_places_text_and_end_marker() {
    let code = "  << codegen a >>\nold\n<< /codegen >> tail";
    let sections = codebiber::parse_file::find(code).unwrap();
    let cfg = Config { checksum_bytes_to_store: 1 };
    let begin = b"  << codegen a >>\n".to_vec();
    let guard = *blake3::hash(&begin).as_bytes();
    let old = *blake3::hash(b"old\n").as_bytes();

    let mut out = begin.clone();
    out.extend_from_slice(b"x");
    let r = finish_region(code.as_bytes(), &sections[0], cfg, &mut out, begin.len(), &guard, &old, Ok(Usage::USE));
    assert_eq!(r, Ok(true));
    let hex = blake3::hash(b"  x\n").to_hex();
    let want = format!("  << codegen a >>\n  x\n<< /codegen {} >> tail\n", &hex[..2]);
    assert_eq!(String::from_utf8(out).unwrap(), want);

    let mut out = begin.clone();
    out.extend_from_slice(b"dropped");
    let r = finish_region(code.as_bytes(), &sections[0], cfg, &mut out, begin.len(), &guard, &old, Ok(Usage::IGNORE));
    assert_eq!(r, Ok(true));
    let hex = blake3::hash(b"old\n").to_hex();
    let want = format!("  << codegen a >>\nold\n<< /codegen {} >> tail\n", &hex[..2]);
    assert_eq!(String::from_utf8(out).unwrap(), want);

    let mut out = begin[..3].to_vec();
    let r = finish_region(code.as_bytes(), &sections[0], cfg, &mut out, begin.len(), &guard, &old, Ok(Usage::USE));
    assert_eq!(r, Err(Gen_Error::FORBIDDEN));

    let mut out = begin.clone();
    let r = finish_region(code.as_bytes(), &sections[0], cfg, &mut out, begin.len(), &guard, &old, Err(std::fmt::Error));
    assert_eq!(r, Err(Gen_Error::FMT(std::fmt::Error)));
}

#[test]
fn end_marker_keeps_its_own_indentation() {
    let src = "    // << codegen x >>\n    old\n  // << /codegen >>\n";
    let cfg = Config { checksum_bytes_to_store: 1 };
    let hex = blake3::hash(b"    old\n").to_hex();
    let want = format!("    // << codegen x >>\n    old\n  // << /codegen {} >>\n", &hex[..2]);
    assert_eq!(generate(src, cfg, produce(None)).unwrap(), Some(want));
}
