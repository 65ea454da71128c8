use codebiber::indentation::Indentation as I;
use codebiber::parse_file::parser::line::Line;
use codebiber::parse_file::parser::{hex_digit, parse_checksum, u8_from_hex};
use codebiber::parse_file::{find, Marker, Parse_Error, Section, Span, Syntax_Error};

fn text<'a>(code: &'a str, s: Span) -> &'a str {
    &code[s.start..s.end]
}

fn parse_line(code: &str) -> Result<Line, Parse_Error> {
    codebiber::parse_file::parser::line::parse(code.as_bytes(), 0, code.len())
}

#[test]
fn parser_trivial() {
    assert!(find("").unwrap().is_empty());
    for code in ["xyz", "xyz\nuvw"] {
        let sections = find(code).unwrap();
        assert_eq!(sections.len(), 1);
        match &sections[0] {
            Section::HANDWRITTEN(s) => assert_eq!(text(code, *s), code),
            other => panic!("{other:?}"),
        }
    }
    let code = "// << codegen foo >>\n// << /codegen >>\n";
    let sections = find(code).unwrap();
    assert_eq!(sections.len(), 1);
    match &sections[0] {
        Section::CODEGEN { identifier, code: c, checksum, begin, end } => {
            assert_eq!(text(code, *identifier), "foo");
            assert_eq!(text(code, *c), "");
            assert!(checksum.is_empty());
            assert_eq!(begin.indentation, I(0));
            assert_eq!(text(code, begin.before_marker), "// ");
            assert_eq!(text(code, begin.after_marker), "");
            assert_eq!(end.indentation, I(0));
            assert_eq!(text(code, end.before_marker), "// ");
            assert_eq!(text(code, end.after_marker), "");
        },
        other => panic!("{other:?}"),
    }
}

#[test]
fn parser_test_multiple_sections() {
    let code = "x\ny\nz\n  // << codegen blub >>\n  uvw\n // << /codegen >>\nabc";
    let sections = find(code).unwrap();
    assert_eq!(sections.len(), 3);
    match &sections[0] {
        Section::HANDWRITTEN(s) => assert_eq!(text(code, *s), "x\ny\nz\n"),
        other => panic!("{other:?}"),
    }
    match &sections[1] {
        Section::CODEGEN { identifier, code: c, checksum, begin, end } => {
            assert_eq!(text(code, *identifier), "blub");
            assert_eq!(text(code, *c), "  uvw\n");
            assert!(checksum.is_empty());
            assert_eq!(begin.indentation, I(2));
            assert_eq!(text(code, begin.before_marker), "// ");
            assert_eq!(text(code, begin.after_marker), "");
            assert_eq!(end.indentation, I(1));
            assert_eq!(text(code, end.before_marker), "// ");
            assert_eq!(text(code, end.after_marker), "");
        },
        other => panic!("{other:?}"),
    }
    match &sections[2] {
        Section::HANDWRITTEN(s) => assert_eq!(text(code, *s), "abc"),
        other => panic!("{other:?}"),
    }
}

#[test]
fn parser_test_checksum() {
    assert_eq!(hex_digit(b'0'), 0);
    assert_eq!(hex_digit(b'9'), 9);
    assert_eq!(hex_digit(b'a'), 10);
    assert_eq!(hex_digit(b'f'), 15);
    assert_eq!(hex_digit(b'A'), 10);
    assert_eq!(hex_digit(b'F'), 15);
    assert_eq!(u8_from_hex([b'4', b'2']), 0x42);

    assert_eq!(parse_checksum(b"").as_slice(), &[] as &[u8]);
    assert_eq!(parse_checksum(b"42").as_slice(), &[0x42]);
    assert_eq!(
        parse_checksum(b"0123456789abcdef").as_slice(),
        &[0x01, 0x23, 0x45, 0x67, 0x89, 0xab, 0xcd, 0xef]
    );

    let checksum = blake3::hash(b"42");
    assert_eq!(parse_checksum(checksum.to_string().as_bytes()).as_slice(), checksum.as_bytes());
}

fn marker(code: &str, m: &Marker) -> (usize, String, String) {
    (m.indentation.0, text(code, m.before_marker).to_owned(), text(code, m.after_marker).to_owned())
}

#[test]
fn line_lines() {
    let indentation = 2;
    assert!(matches!(parse_line("").unwrap(), Line::CODE(_)));
    assert!(matches!(parse_line("xyz").unwrap(), Line::CODE(_)));

    let code = "  // << codegen foo >> let's go!";
    match parse_line(code).unwrap() {
        Line::BEGIN_CODEGEN { marker: m, identifier } => {
            assert_eq!(text(code, identifier), "foo");
            assert_eq!(marker(code, &m), (indentation, "// ".to_owned(), " let's go!".to_owned()));
        },
        other => panic!("{other:?}"),
    }
    for (code, cs) in [
        ("  // << /codegen f00baa >> nice!", "f00baa"),
        ("  // << /codegen >> nice!", ""),
        ("  // << /codegen>> nice!", ""),
    ] {
        match parse_line(code).unwrap() {
            Line::END_CODEGEN { marker: m, checksum } => {
                assert_eq!(text(code, checksum), cs);
                assert_eq!(marker(code, &m), (indentation, "// ".to_owned(), " nice!".to_owned()));
            },
            other => panic!("{other:?}"),
        }
    }
}

#[test]
fn line_with_odd_or_non_hex_checksum_is_rejected() {
    assert!(matches!(parse_line("// << /codegen f00ba >>"), Err(Parse_Error::INVALID_CHECKSUM(_))));
    assert!(matches!(parse_line("// << /codegen xyz >>"), Err(Parse_Error::INVALID_CHECKSUM(_))));
    let long = format!("<< /codegen {} >>", "ab".repeat(33));
    assert!(matches!(parse_line(&long), Err(Parse_Error::INVALID_CHECKSUM(_))));
}

#[test]
fn line_with_malformed_marker_is_a_syntax_error() {
    assert_eq!(parse_line("<< codegen >>"), Err(Parse_Error::SYNTAX(Syntax_Error { offset: 0 })));
    assert_eq!(parse_line("<< codegen foo>>"), Err(Parse_Error::SYNTAX(Syntax_Error { offset: 0 })));
    assert_eq!(parse_line("<< codegen 42 >>"), Err(Parse_Error::SYNTAX(Syntax_Error { offset: 0 })));
    assert_eq!(parse_line("<< /codegen ab"), Err(Parse_Error::SYNTAX(Syntax_Error { offset: 0 })));
}

#[test]
fn line_whose_first_open_is_not_a_marker_is_code() {
    assert!(matches!(parse_line("x << y << codegen foo >>").unwrap(), Line::CODE(_)));
    assert!(matches!(parse_line("<<< codegen foo >>").unwrap(), Line::CODE(_)));
    assert!(matches!(parse_line("<< codegenfoo >>").unwrap(), Line::CODE(_)));
}

#[test]
fn unterminated_and_unmatched_markers_fail() {
    assert_eq!(find("a\n<< codegen foo >>\nx\n"), Err(Parse_Error::SYNTAX(Syntax_Error { offset: 2 })));
    assert_eq!(find("a\n<< /codegen >>\n"), Err(Parse_Error::SYNTAX(Syntax_Error { offset: 2 })));
    assert_eq!(
        find("<< codegen a >>\n<< codegen b >>\n<< /codegen >>\n"),
        Err(Parse_Error::SYNTAX(Syntax_Error { offset: 16 }))
    );
}

#[test]
fn stored_checksum_is_decoded() {
    let code = "<< codegen a >>\n<< /codegen 0aFf >>";
    let sections = find(code).unwrap();
    match &sections[0] {
        Section::CODEGEN { checksum, .. } => assert_eq!(checksum.as_slice(), &[0x0a, 0xff]),
        other => panic!("{other:?}"),
    }
}

#[test]
fn parser_test_parse_section() {
    // A whole file without markers is one hand-written section; an empty file
    // has no section at all.
    assert!(find("").unwrap().is_empty());
    for code in ["xyz", "x\ny\nz", "x\ny\n"] {
        let sections = find(code).unwrap();
        assert_eq!(sections.len(), 1);
        match &sections[0] {
            Section::HANDWRITTEN(s) => assert_eq!(text(code, *s), code),
            other => panic!("{other:?}"),
        }
    }
}
