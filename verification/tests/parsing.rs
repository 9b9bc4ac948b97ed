use brainfuck::Code;
use brainfuck::ParseError;

#[test]
fn empty_source_parses_to_empty_program() {
    let code = Code::parse_string("").unwrap();
    assert_eq!(code.render(), "");
}

#[test]
fn instructions_parse_in_order() {
    let code = Code::parse_string("><+-,.").unwrap();
    assert_eq!(code.render(), "><+-,.");
}

#[test]
fn comments_are_ignored() {
    let code = Code::parse_string("a + b\n[ - ]\t!").unwrap();
    assert_eq!(code.render(), "+[-]");
}

#[test]
fn only_comments_parse_to_empty_program() {
    let code = Code::parse_string("hello world\n").unwrap();
    assert_eq!(code.render(), "");
}

#[test]
fn adjacent_and_nested_loops_parse() {
    let code = Code::parse_string("[][[]]").unwrap();
    assert_eq!(code.render(), "[][[]]");
}

#[test]
fn deeply_nested_loops_parse() {
    let code = Code::parse_string("+[>[-]<[[+]]]").unwrap();
    assert_eq!(code.render(), "+[>[-]<[[+]]]");
}

#[test]
fn stray_closing_bracket_is_rejected() {
    assert!(matches!(Code::parse_string("]"), Err(ParseError::UnmatchedClosing)));
}

#[test]
fn excess_closing_bracket_mid_scan_is_rejected() {
    assert!(matches!(Code::parse_string("[]]["), Err(ParseError::UnmatchedClosing)));
}

#[test]
fn stray_opening_bracket_is_rejected() {
    assert!(matches!(Code::parse_string("["), Err(ParseError::UnmatchedOpening)));
}

#[test]
fn unclosed_nested_bracket_is_rejected() {
    assert!(matches!(Code::parse_string("+[[-]"), Err(ParseError::UnmatchedOpening)));
}

#[test]
fn closing_error_wins_over_opening_error() {
    // the stray `]` is seen mid-scan, before the unclosed `[` can be found
    assert!(matches!(Code::parse_string("]["), Err(ParseError::UnmatchedClosing)));
}

#[test]
fn reparsing_rendered_source_gives_the_same_tree() {
    let sources = ["", "+++.", "+[-]", "a+[>,.-]<z", "[][[]]", ",[.,]"];
    for src in sources {
        let first = Code::parse_string(src).unwrap();
        let rendered = first.render();
        let second = Code::parse_string(&rendered).unwrap();
        assert_eq!(second.render(), rendered);
    }
}
