use taro_lang::repl::is_incomplete;

#[test]
fn test_is_incomplete_empty() {
    assert!(!is_incomplete(""));
}

#[test]
fn test_is_incomplete_complete_statement() {
    assert!(!is_incomplete("var x = 1;\n"));
    assert!(!is_incomplete("print(\"hello\");\n"));
}

#[test]
fn test_is_incomplete_open_paren() {
    assert!(is_incomplete("print("));
    assert!(is_incomplete("print(1,"));
}

#[test]
fn test_is_incomplete_closed_paren() {
    assert!(!is_incomplete("print(1)"));
}

#[test]
fn test_is_incomplete_open_brace() {
    assert!(is_incomplete("if (true) {"));
}

#[test]
fn test_is_incomplete_closed_brace() {
    assert!(!is_incomplete("if (true) { x = 1; }"));
}

#[test]
fn test_is_incomplete_open_bracket() {
    assert!(is_incomplete("var x = [1, 2"));
}

#[test]
fn test_is_incomplete_closed_bracket() {
    assert!(!is_incomplete("var x = [1, 2];"));
}

#[test]
fn test_is_incomplete_unclosed_string() {
    assert!(is_incomplete("\"hello"));
}

#[test]
fn test_is_incomplete_closed_string() {
    assert!(!is_incomplete("\"hello\""));
}

#[test]
fn test_is_incomplete_escaped_quote_in_string() {
    // \" inside a string should NOT close the string.
    assert!(is_incomplete("\"hello \\\" world"));
    // Properly closed after escaped quote.
    assert!(!is_incomplete("\"hello \\\" world\""));
}

#[test]
fn test_is_incomplete_line_comment() {
    // Line comment with trailing newline is a complete statement.
    assert!(!is_incomplete("// this is a comment\n"));
    // Line comment at EOF (no trailing newline) is also complete —
    // the scanner handles this case gracefully.
    assert!(!is_incomplete("// comment without newline"));
}

#[test]
fn test_is_incomplete_mixed() {
    assert!(is_incomplete("fn { ( [ \"x"));
}

#[test]
fn escaped_backslash_ends_the_escape() {
    assert!(!is_incomplete(r#""\\""#));
    assert!(!is_incomplete(r#"print("\\");"#));
    assert!(is_incomplete(r#""a\""#));
    assert!(is_incomplete(r#"print("\\\");"#));
}
