use codebiber::{generate, Config, Gen_Error, Usage};

#[test]
fn tampered_region_is_refused_whatever_the_producer_does() {
    // blake3("X\n") does not start with 0xab12.
    assert!(!blake3::hash(b"X\n").to_hex().starts_with("ab12"));
    let cfg = Config { checksum_bytes_to_store: 2 };
    let src = "<< codegen foo >>\nX\n<< /codegen ab12 >>";
    let want = Err(Gen_Error::WRONG_CHECKSUM(*blake3::hash(b"X\n").as_bytes()));
    assert_eq!(generate(src, cfg, |_, out| (out, Ok(Usage::IGNORE))), want);
    assert_eq!(generate(src, cfg, |_, mut out: Vec<u8>| { out.extend_from_slice(b"X\n"); (out, Ok(Usage::USE)) }), want);
    assert_eq!(generate(src, cfg, |_, out| (out, Err(std::fmt::Error))), want);
}

#[test]
fn producer_text_takes_the_begin_marker_indentation() {
    let cfg = Config { checksum_bytes_to_store: 0 };
    let out = generate("  << codegen x >>\n<< /codegen >>", cfg, |_, mut out: Vec<u8>| {
        out.extend_from_slice(b"42\n137");
        (out, Ok(Usage::USE))
    })
    .unwrap()
    .unwrap();
    assert_eq!(out, "  << codegen x >>\n  42\n  137\n<< /codegen >>\n");
}

#[test]
fn producer_that_shrinks_the_output_is_refused() {
    let cfg = Config { checksum_bytes_to_store: 0 };
    let src = "head\n<< codegen x >>\n<< /codegen >>";
    let r = generate(src, cfg, |_, mut out: Vec<u8>| {
        out.truncate(out.len() - 1);
        (out, Ok(Usage::IGNORE))
    });
    assert_eq!(r, Err(Gen_Error::FORBIDDEN));
}

#[test]
fn producer_that_changes_earlier_output_is_refused() {
    let cfg = Config { checksum_bytes_to_store: 0 };
    let src = "head\n<< codegen x >>\n<< /codegen >>";
    let r = generate(src, cfg, |_, mut out: Vec<u8>| {
        out[0] = b'H';
        out.extend_from_slice(b"fine\n");
        (out, Ok(Usage::USE))
    });
    assert_eq!(r, Err(Gen_Error::FORBIDDEN));
}

#[test]
fn ignoring_every_region_changes_nothing_even_after_writing() {
    let cfg = Config { checksum_bytes_to_store: 0 };
    let src = "a\n<< codegen x >>\nold\n<< /codegen >>\nb\n  // << codegen y >>\n  y\n  // << /codegen >>\n";
    let r = generate(src, cfg, |_, mut out: Vec<u8>| {
        out.extend_from_slice(b"discarded\n");
        (out, Ok(Usage::IGNORE))
    });
    assert_eq!(r, Ok(None));
}

#[test]
fn storing_checksums_for_the_first_time_rewrites_the_file() {
    let src = "<< codegen x >>\nold\n<< /codegen >>\n";
    assert_eq!(generate(src, Config { checksum_bytes_to_store: 0 }, |_, out| (out, Ok(Usage::IGNORE))), Ok(None));
    let hex = blake3::hash(b"old\n").to_hex();
    let want = format!("<< codegen x >>\nold\n<< /codegen {} >>\n", &hex[..6]);
    assert_eq!(generate(src, Config { checksum_bytes_to_store: 3 }, |_, out| (out, Ok(Usage::IGNORE))), Ok(Some(want)));
}

#[test]
fn regenerating_its_own_output_changes_nothing() {
    let cfg = Config { checksum_bytes_to_store: 4 };
    let src = "x\n  // << codegen a >> tail\n  // << /codegen >>\n<< codegen b >>\nold\n<< /codegen >>\n";
    let mut producer = |name: &str, mut out: Vec<u8>| {
        if name == "a" {
            out.extend_from_slice(b"one\n\ntwo");
            (out, Ok(Usage::USE))
        } else {
            (out, Ok(Usage::IGNORE))
        }
    };
    let first = generate(src, cfg, &mut producer).unwrap().unwrap();
    assert_eq!(generate(first.as_str(), cfg, &mut producer), Ok(None));
}

#[test]
fn unchanged_regions_with_matching_checksums_give_none() {
    let cfg = Config { checksum_bytes_to_store: 2 };
    let hex = blake3::hash(b"same\n").to_hex();
    let src = format!("<< codegen a >>\nsame\n<< /codegen {} >>\n", &hex[..4]);
    let r = generate(src.as_str(), cfg, |_, mut out: Vec<u8>| {
        out.extend_from_slice(b"same");
        (out, Ok(Usage::USE))
    });
    assert_eq!(r, Ok(None));
}

#[test]
fn producer_failure_is_passed_on() {
    let cfg = Config { checksum_bytes_to_store: 0 };
    let r = generate("<< codegen a >>\n<< /codegen >>", cfg, |_, out| (out, Err(std::fmt::Error)));
    assert_eq!(r, Err(Gen_Error::FMT(std::fmt::Error)));
}

#[test]
fn syntax_errors_are_passed_on() {
    let cfg = Config { checksum_bytes_to_store: 0 };
    let r = generate("<< codegen a >>\n", cfg, |_, out| (out, Ok(Usage::USE)));
    assert!(matches!(r, Err(Gen_Error::FIND(_))));
}

#[test]
fn producer_text_that_is_not_utf8_is_refused() {
    let cfg = Config { checksum_bytes_to_store: 0 };
    let r = generate("<< codegen a >>\n<< /codegen >>", cfg, |_, mut out: Vec<u8>| {
        out.push(0xff);
        (out, Ok(Usage::USE))
    });
    assert_eq!(r, Err(Gen_Error::NOT_UTF8));
}

#[test]
fn config_validity() {
    assert!(Config { checksum_bytes_to_store: 32 }.is_valid());
    assert!(!Config { checksum_bytes_to_store: 33 }.is_valid());
}
