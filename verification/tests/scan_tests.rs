use taro_lang::scan::Scanner;
use taro_lang::token::{Token, TokenKind};

/// Helper: scan source and return just the token kinds.
fn scan_kinds(source: &str) -> Vec<TokenKind> {
    let mut scanner = Scanner::new(source);
    scanner
        .scan_tokens()
        .unwrap()
        .into_iter()
        .map(|t| t.kind)
        .collect()
}

/// Helper: scan source and return the full tokens.
fn scan_tokens(source: &str) -> Vec<Token> {
    let mut scanner = Scanner::new(source);
    scanner.scan_tokens().unwrap()
}

// ------------------------------------------------------------------------
//  Single-character tokens
// ------------------------------------------------------------------------

#[test]
fn test_single_char_tokens() {
    let source = "(){} ,.-+;/*";
    let kinds = scan_kinds(source);
    assert_eq!(
        kinds,
        vec![
            TokenKind::LeftParen,
            TokenKind::RightParen,
            TokenKind::LeftBrace,
            TokenKind::RightBrace,
            TokenKind::Comma,
            TokenKind::Dot,
            TokenKind::Minus,
            TokenKind::Plus,
            TokenKind::Semicolon,
            TokenKind::Slash,
            TokenKind::Star,
            TokenKind::Eof,
        ]
    );
}

// ------------------------------------------------------------------------
//  One-or-two character tokens
// ------------------------------------------------------------------------

#[test]
fn test_bang_and_bang_equal() {
    let kinds = scan_kinds("! !=");
    assert_eq!(
        kinds,
        vec![
            TokenKind::Bang,
            TokenKind::BangEqual,
            TokenKind::Eof,
        ]
    );
}

#[test]
fn test_equal_and_equal_equal() {
    let kinds = scan_kinds("= ==");
    assert_eq!(
        kinds,
        vec![
            TokenKind::Equal,
            TokenKind::EqualEqual,
            TokenKind::Eof,
        ]
    );
}

#[test]
fn test_less_and_less_equal() {
    let kinds = scan_kinds("< <=");
    assert_eq!(
        kinds,
        vec![
            TokenKind::Less,
            TokenKind::LessEqual,
            TokenKind::Eof,
        ]
    );
}

#[test]
fn test_greater_and_greater_equal() {
    let kinds = scan_kinds("> >=");
    assert_eq!(
        kinds,
        vec![
            TokenKind::Greater,
            TokenKind::GreaterEqual,
            TokenKind::Eof,
        ]
    );
}

#[test]
fn test_two_char_tokens_no_space() {
    let kinds = scan_kinds("!= == <= >=");
    assert_eq!(
        kinds,
        vec![
            TokenKind::BangEqual,
            TokenKind::EqualEqual,
            TokenKind::LessEqual,
            TokenKind::GreaterEqual,
            TokenKind::Eof,
        ]
    );
}

// ------------------------------------------------------------------------
//  Numbers
// ------------------------------------------------------------------------

#[test]
fn test_integer() {
    let tokens = scan_tokens("42");
    assert_eq!(tokens[0].kind, TokenKind::Number);
    assert_eq!(tokens[0].lexeme, "42");
}

#[test]
fn test_decimal() {
    let tokens = scan_tokens("3.14");
    assert_eq!(tokens[0].kind, TokenKind::Number);
    assert_eq!(tokens[0].lexeme, "3.14");
}

#[test]
fn test_decimal_starting_with_dot_is_not_number() {
    // `.` alone is Dot, then the digits form a Number.
    let kinds = scan_kinds(".5");
    assert_eq!(
        kinds,
        vec![
            TokenKind::Dot,
            TokenKind::Number,
            TokenKind::Eof,
        ]
    );
}

#[test]
fn test_trailing_dot_is_separate() {
    // "12." should tokenize as Number("12"), Dot(".")
    let tokens = scan_tokens("12.");
    assert_eq!(tokens[0].kind, TokenKind::Number);
    assert_eq!(tokens[0].lexeme, "12");
    assert_eq!(tokens[1].kind, TokenKind::Dot);
}

#[test]
fn test_number_followed_by_identifier() {
    // No space between number and identifier: the identifier path is not
    // entered because the first char is a digit.
    let kinds = scan_kinds("42foo");
    assert_eq!(kinds[0], TokenKind::Number);
    assert_eq!(kinds[1], TokenKind::Identifier);
    // lexeme of the identifier should be "foo"
    let tokens = scan_tokens("42foo");
    assert_eq!(tokens[1].lexeme, "foo");
}

// ------------------------------------------------------------------------
//  Strings
// ------------------------------------------------------------------------

#[test]
fn test_simple_string() {
    let tokens = scan_tokens("\"hello\"");
    assert_eq!(tokens[0].kind, TokenKind::String);
    assert_eq!(tokens[0].lexeme, "\"hello\"");
}

#[test]
fn scan_test_empty_string() {
    let tokens = scan_tokens("\"\"");
    assert_eq!(tokens[0].kind, TokenKind::String);
    assert_eq!(tokens[0].lexeme, "\"\"");
}

#[test]
fn test_string_with_newline_increments_line() {
    let source = "\"a\nb\"";
    let mut scanner = Scanner::new(source);
    let tokens = scanner.scan_tokens().unwrap();
    assert_eq!(tokens[0].kind, TokenKind::String);
    // The scanner's line counter should have advanced to 2 because of the
    // embedded newline.
    assert_eq!(scanner.line(), 2);
}

#[test]
fn test_unterminated_string_is_error() {
    let result = Scanner::new("\"no close").scan_tokens();
    assert!(result.is_err());
}

// ------------------------------------------------------------------------
//  Identifiers and keywords
// ------------------------------------------------------------------------

#[test]
fn test_simple_identifier() {
    let tokens = scan_tokens("foo");
    assert_eq!(tokens[0].kind, TokenKind::Identifier);
    assert_eq!(tokens[0].lexeme, "foo");
}

#[test]
fn test_identifier_with_underscore() {
    let tokens = scan_tokens("my_var");
    assert_eq!(tokens[0].kind, TokenKind::Identifier);
    assert_eq!(tokens[0].lexeme, "my_var");
}

#[test]
fn test_identifier_with_digits() {
    let tokens = scan_tokens("x42");
    assert_eq!(tokens[0].kind, TokenKind::Identifier);
    assert_eq!(tokens[0].lexeme, "x42");
}

#[test]
fn test_identifier_starting_with_underscore() {
    let tokens = scan_tokens("_hidden");
    assert_eq!(tokens[0].kind, TokenKind::Identifier);
    assert_eq!(tokens[0].lexeme, "_hidden");
}

#[test]
fn test_all_keywords() {
    let keywords = [
        ("and", TokenKind::And),
        ("class", TokenKind::Class),
        ("else", TokenKind::Else),
        ("false", TokenKind::False),
        ("for", TokenKind::For),
        ("fun", TokenKind::Fun),
        ("if", TokenKind::If),
        ("nil", TokenKind::Nil),
        ("or", TokenKind::Or),
        ("print", TokenKind::Print),
        ("return", TokenKind::Return),
        ("super", TokenKind::Super),
        ("this", TokenKind::This),
        ("true", TokenKind::True),
        ("var", TokenKind::Var),
        ("while", TokenKind::While),
    ];

    for (source, expected_kind) in keywords {
        let tokens = scan_tokens(source);
        assert_eq!(
            tokens[0].kind, expected_kind,
            "expected keyword '{source}' to map to {expected_kind:?}",
        );
        assert_eq!(tokens[0].lexeme, source);
    }
}

#[test]
fn test_keyword_prefix_is_identifier() {
    // "whilefoo" is an identifier, not the keyword "while".
    let tokens = scan_tokens("whilefoo");
    assert_eq!(tokens[0].kind, TokenKind::Identifier);
    assert_eq!(tokens[0].lexeme, "whilefoo");
}

// ------------------------------------------------------------------------
//  Comments and whitespace
// ------------------------------------------------------------------------

#[test]
fn test_line_comment_ignored() {
    let kinds = scan_kinds("// this is a comment\n+");
    // Only the `+` token should appear (plus Eof).
    assert_eq!(kinds, vec![TokenKind::Plus, TokenKind::Eof]);
}

#[test]
fn test_slash_is_not_comment() {
    let kinds = scan_kinds("/");
    assert_eq!(kinds, vec![TokenKind::Slash, TokenKind::Eof]);
}

#[test]
fn test_slash_slash_at_eof() {
    // "//" at EOF with no newline — comment runs to end, then Eof.
    let kinds = scan_kinds("//");
    assert_eq!(kinds, vec![TokenKind::Eof]);
}

#[test]
fn test_line_counting() {
    let mut scanner = Scanner::new("line1\nline2\nline3");
    let tokens = scanner.scan_tokens().unwrap();
    // All three identifiers plus Eof.
    assert_eq!(tokens.len(), 4);
    // The last token (Eof) should be on line 3.
    assert_eq!(tokens[0].line, 1);
    assert_eq!(tokens[1].line, 2);
    assert_eq!(tokens[2].line, 3);
    assert_eq!(tokens[3].line, 3); // Eof stays on the last line
}

#[test]
fn test_whitespace_skipped() {
    let kinds = scan_kinds("  \t  \r  +");
    assert_eq!(kinds, vec![TokenKind::Plus, TokenKind::Eof]);
}

// ------------------------------------------------------------------------
//  Edge cases
// ------------------------------------------------------------------------

#[test]
fn test_empty_source_gives_only_eof() {
    let kinds = scan_kinds("");
    assert_eq!(kinds, vec![TokenKind::Eof]);
}

#[test]
fn test_multiple_tokens_no_spaces() {
    let kinds = scan_kinds("(){}");
    assert_eq!(
        kinds,
        vec![
            TokenKind::LeftParen,
            TokenKind::RightParen,
            TokenKind::LeftBrace,
            TokenKind::RightBrace,
            TokenKind::Eof,
        ]
    );
}

#[test]
fn test_assignment_expression() {
    let kinds = scan_kinds("var x = 3.14;");
    assert_eq!(
        kinds,
        vec![
            TokenKind::Var,
            TokenKind::Identifier,
            TokenKind::Equal,
            TokenKind::Number,
            TokenKind::Semicolon,
            TokenKind::Eof,
        ]
    );
}

#[test]
fn test_lexeme_slices_are_correct() {
    let tokens = scan_tokens("var x = 42");
    assert_eq!(tokens[0].lexeme, "var");
    assert_eq!(tokens[1].lexeme, "x");
    assert_eq!(tokens[2].lexeme, "=");
    assert_eq!(tokens[3].lexeme, "42");
}
