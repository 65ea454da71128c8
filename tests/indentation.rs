use codebiber::indentation::{ensure_tailing_linebreak, Indentation, Unindent_Error};

fn assert_indent(i: usize, unindented: &str, indented: &str) {
    assert_eq!(Indentation(i).indent_str(unindented).as_str(), indented);
    assert_eq!(
        Indentation(i).unindent_str(indented).unwrap().as_str(),
        ensure_tailing_linebreak(unindented.to_owned())
    );
}

#[test]
fn indentation_test_trivial() {
    assert_indent(0, "", "");
    assert_indent(0, "x", "x\n");
    assert_indent(0, "x\ny", "x\ny\n");
}

#[test]
fn test_simpl() {
    assert_indent(2, "", "");
    assert_indent(2, "x", "  x\n");
    assert_indent(2, "x\ny", "  x\n  y\n");
    assert_indent(4, "Hello, World!", "    Hello, World!\n");
}

#[test]
fn test_with_lienbreak() {
    assert_indent(2, "x\ny\nz", "  x\n  y\n  z\n");
}

#[test]
fn test_dont_add_trailing_whitespace() {
    assert_indent(2, "x\n\n\ny", "  x\n\n\n  y\n");
    assert_indent(2, "x\n\ny\n\n\nz", "  x\n\n  y\n\n\n  z\n");
    assert_indent(2, "x\n", "  x\n");
}

#[test]
fn test_difficult_cases() {
    assert_indent(2, "\nx", "\n  x\n");
}

#[test]
fn test_unindent_invalid_indentation() {
    assert_eq!(Indentation(2).unindent_str("xyz"), Err(Unindent_Error::NON_WS_IN_INDENTATION));
    assert_eq!(Indentation(2).unindent_str(" \n").unwrap(), "\n");
}

#[test]
fn indent_subrange_shifts_only_the_tail() {
    let mut buf = b"keep\nx\n\ny".to_vec();
    codebiber::indentation::indent_subrange(&mut buf, 5, 3);
    assert_eq!(buf, b"keep\n   x\n\n   y".to_vec());
}

#[test]
fn indent_subrange_zero_width_and_empty_tail() {
    let mut buf = b"a\nb".to_vec();
    codebiber::indentation::indent_subrange(&mut buf, 0, 0);
    assert_eq!(buf, b"a\nb".to_vec());
    codebiber::indentation::indent_subrange(&mut buf, 3, 4);
    assert_eq!(buf, b"a\nb".to_vec());
}

#[test]
fn indent_subrange_keeps_final_line_break() {
    let mut buf = b"42\n137\n".to_vec();
    codebiber::indentation::indent_subrange(&mut buf, 0, 2);
    assert_eq!(buf, b"  42\n  137\n".to_vec());
}

#[test]
fn indent_growth_counts_non_empty_lines() {
    let buf = b"x\n\ny\n".to_vec();
    assert_eq!(codebiber::indentation::indent_growth(&buf, 0, 4), Some(8));
    assert_eq!(codebiber::indentation::indent_growth(&buf, 0, usize::MAX), None);
}

#[test]
fn to_spaces_writes_the_indentation() {
    assert_eq!(Indentation(3).to_spaces(), "   ");
}

#[test]
fn unindent_treats_crlf_as_a_line_ending() {
    assert_eq!(Indentation(0).unindent_str("a\r\n").unwrap(), "a\n");
    assert_eq!(Indentation(2).unindent_str(" \r\n").unwrap(), "\n");
    assert_eq!(Indentation(2).unindent_str("  a\r\n  b").unwrap(), "a\nb\n");
    assert_eq!(Indentation(0).unindent_str("a\r").unwrap(), "a\r\n");
    assert_eq!(Indentation(2).unindent_str(" \rx\n"), Err(Unindent_Error::NON_WS_IN_INDENTATION));
}
