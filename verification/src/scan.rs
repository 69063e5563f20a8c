use vstd::prelude::*;

use crate::token::{Token, TokenKind, TokenView, tokens_view};

verus! {

// ========================================================================== //
//                    Character classes
// ========================================================================== //

pub open spec fn is_digit_spec(c: char) -> bool {
    '0' <= c && c <= '9'
}

pub open spec fn is_alpha_spec(c: char) -> bool {
    ('a' <= c && c <= 'z') || ('A' <= c && c <= 'Z') || c == '_'
}

pub open spec fn is_ident_char_spec(c: char) -> bool {
    is_alpha_spec(c) || is_digit_spec(c)
}

/// ASCII digit test.
pub fn is_digit(c: char) -> (b: bool)
    ensures
        b == is_digit_spec(c),
{
    c >= '0' && c <= '9'
}

/// ASCII letter or underscore.
pub fn is_alpha(c: char) -> (b: bool)
    ensures
        b == is_alpha_spec(c),
{
    (c >= 'a' && c <= 'z') || (c >= 'A' && c <= 'Z') || c == '_'
}

// ========================================================================== //
//                    Lexical specification
// ========================================================================== //

/// First index at or after `i` that does not hold a digit.
pub open spec fn digits_end(s: Seq<char>, i: int) -> int
    decreases s.len() - i,
{
    if 0 <= i < s.len() && is_digit_spec(s[i]) {
        digits_end(s, i + 1)
    } else {
        i
    }
}

/// First index at or after `i` that does not hold an identifier character.
pub open spec fn ident_end(s: Seq<char>, i: int) -> int
    decreases s.len() - i,
{
    if 0 <= i < s.len() && is_ident_char_spec(s[i]) {
        ident_end(s, i + 1)
    } else {
        i
    }
}

/// The word that spells keyword `k`; `None` for a kind that is no keyword.
pub open spec fn keyword_text(k: TokenKind) -> Option<Seq<char>> {
    match k {
        TokenKind::And => Some(seq!['a', 'n', 'd']),
        TokenKind::As => Some(seq!['a', 's']),
        TokenKind::Break => Some(seq!['b', 'r', 'e', 'a', 'k']),
        TokenKind::Class => Some(seq!['c', 'l', 'a', 's', 's']),
        TokenKind::Continue => Some(seq!['c', 'o', 'n', 't', 'i', 'n', 'u', 'e']),
        TokenKind::Else => Some(seq!['e', 'l', 's', 'e']),
        TokenKind::Extends => Some(seq!['e', 'x', 't', 'e', 'n', 'd', 's']),
        TokenKind::False => Some(seq!['f', 'a', 'l', 's', 'e']),
        TokenKind::For => Some(seq!['f', 'o', 'r']),
        TokenKind::Fun => Some(seq!['f', 'u', 'n']),
        TokenKind::If => Some(seq!['i', 'f']),
        TokenKind::In => Some(seq!['i', 'n']),
        TokenKind::Import => Some(seq!['i', 'm', 'p', 'o', 'r', 't']),
        TokenKind::Nil => Some(seq!['n', 'i', 'l']),
        TokenKind::Or => Some(seq!['o', 'r']),
        TokenKind::Print => Some(seq!['p', 'r', 'i', 'n', 't']),
        TokenKind::Return => Some(seq!['r', 'e', 't', 'u', 'r', 'n']),
        TokenKind::Super => Some(seq!['s', 'u', 'p', 'e', 'r']),
        TokenKind::This => Some(seq!['t', 'h', 'i', 's']),
        TokenKind::True => Some(seq!['t', 'r', 'u', 'e']),
        TokenKind::Var => Some(seq!['v', 'a', 'r']),
        TokenKind::While => Some(seq!['w', 'h', 'i', 'l', 'e']),
        _ => None,
    }
}

/// A word scans as a keyword only when it is that keyword's whole word:
/// any other word, one that merely starts with a keyword among them, is an
/// identifier.
pub proof fn lemma_keyword_is_whole_word(w: Seq<char>)
    ensures
        keyword_kind(w) == TokenKind::Identifier || keyword_text(keyword_kind(w)) == Some(w),
{
}

/// Each keyword's word scans as that keyword.
pub proof fn lemma_keyword_word_scans_back(k: TokenKind)
    ensures
        keyword_text(k) matches Some(t) ==> keyword_kind(t) == k,
{
}

/// Keyword classification of an identifier-shaped word.
pub open spec fn keyword_kind(w: Seq<char>) -> TokenKind {
    if w == seq!['a', 'n', 'd'] {
        TokenKind::And
    } else if w == seq!['a', 's'] {
        TokenKind::As
    } else if w == seq!['b', 'r', 'e', 'a', 'k'] {
        TokenKind::Break
    } else if w == seq!['c', 'l', 'a', 's', 's'] {
        TokenKind::Class
    } else if w == seq!['c', 'o', 'n', 't', 'i', 'n', 'u', 'e'] {
        TokenKind::Continue
    } else if w == seq!['e', 'l', 's', 'e'] {
        TokenKind::Else
    } else if w == seq!['e', 'x', 't', 'e', 'n', 'd', 's'] {
        TokenKind::Extends
    } else if w == seq!['f', 'a', 'l', 's', 'e'] {
        TokenKind::False
    } else if w == seq!['f', 'o', 'r'] {
        TokenKind::For
    } else if w == seq!['f', 'u', 'n'] {
        TokenKind::Fun
    } else if w == seq!['i', 'f'] {
        TokenKind::If
    } else if w == seq!['i', 'n'] {
        TokenKind::In
    } else if w == seq!['i', 'm', 'p', 'o', 'r', 't'] {
        TokenKind::Import
    } else if w == seq!['n', 'i', 'l'] {
        TokenKind::Nil
    } else if w == seq!['o', 'r'] {
        TokenKind::Or
    } else if w == seq!['p', 'r', 'i', 'n', 't'] {
        TokenKind::Print
    } else if w == seq!['r', 'e', 't', 'u', 'r', 'n'] {
        TokenKind::Return
    } else if w == seq!['s', 'u', 'p', 'e', 'r'] {
        TokenKind::Super
    } else if w == seq!['t', 'h', 'i', 's'] {
        TokenKind::This
    } else if w == seq!['t', 'r', 'u', 'e'] {
        TokenKind::True
    } else if w == seq!['v', 'a', 'r'] {
        TokenKind::Var
    } else if w == seq!['w', 'h', 'i', 'l', 'e'] {
        TokenKind::While
    } else {
        TokenKind::Identifier
    }
}

/// Skip blanks, newlines and `//` comments from index `i`.  Returns the new
/// index, the new line number and the index where the current line starts.
pub open spec fn skip_ws(s: Seq<char>, i: int, line: nat, ls: int) -> (int, nat, int)
    decreases s.len() - i, 0int,
{
    if i < 0 || i >= s.len() {
        (i, line, ls)
    } else {
        let c = s[i];
        if c == ' ' || c == '\r' || c == '\t' {
            skip_ws(s, i + 1, line, ls)
        } else if c == '\n' {
            skip_ws(s, i + 1, line + 1, i + 1)
        } else if c == '/' && i + 1 < s.len() && s[i + 1] == '/' {
            skip_comment(s, i + 2, line, ls)
        } else {
            (i, line, ls)
        }
    }
}

/// Skip the rest of a line comment (up to, not including, the newline).
pub open spec fn skip_comment(s: Seq<char>, i: int, line: nat, ls: int) -> (int, nat, int)
    decreases s.len() - i, 1int,
{
    if i < 0 || i >= s.len() {
        (i, line, ls)
    } else if s[i] == '\n' {
        skip_ws(s, i, line, ls)
    } else {
        skip_comment(s, i + 1, line, ls)
    }
}

/// Scan a string body starting after the opening quote at `i`.  Returns the
/// index just past the closing quote with the updated line counters, or
/// `None` when the source ends first.
pub open spec fn string_body(s: Seq<char>, i: int, line: nat, ls: int) -> Option<(int, nat, int)>
    decreases s.len() - i,
{
    if i < 0 || i >= s.len() {
        None
    } else if s[i] == '"' {
        Some((i + 1, line, ls))
    } else if s[i] == '\n' {
        string_body(s, i + 1, line + 1, i + 1)
    } else {
        string_body(s, i + 1, line, ls)
    }
}

/// End of a number literal that starts at `start`: digits, optionally
/// followed by a `.` and at least one digit.
pub open spec fn number_end(s: Seq<char>, start: int) -> int {
    let e = digits_end(s, start + 1);
    if e + 1 < s.len() && s[e] == '.' && is_digit_spec(s[e + 1]) {
        digits_end(s, e + 2)
    } else {
        e
    }
}

/// Kind of a token made of one punctuation character.
pub open spec fn single_char_kind(c: char) -> Option<TokenKind> {
    if c == '(' {
        Some(TokenKind::LeftParen)
    } else if c == ')' {
        Some(TokenKind::RightParen)
    } else if c == '{' {
        Some(TokenKind::LeftBrace)
    } else if c == '}' {
        Some(TokenKind::RightBrace)
    } else if c == '[' {
        Some(TokenKind::LeftBracket)
    } else if c == ']' {
        Some(TokenKind::RightBracket)
    } else if c == ',' {
        Some(TokenKind::Comma)
    } else if c == '.' {
        Some(TokenKind::Dot)
    } else if c == '-' {
        Some(TokenKind::Minus)
    } else if c == '+' {
        Some(TokenKind::Plus)
    } else if c == ';' {
        Some(TokenKind::Semicolon)
    } else if c == '/' {
        Some(TokenKind::Slash)
    } else if c == ':' {
        Some(TokenKind::Colon)
    } else if c == '*' {
        Some(TokenKind::Star)
    } else if c == '%' {
        Some(TokenKind::Percent)
    } else {
        None
    }
}

/// For `!`, `=`, `<`, `>`: the kinds without and with a following `=`.
pub open spec fn compare_kinds(c: char) -> Option<(TokenKind, TokenKind)> {
    if c == '!' {
        Some((TokenKind::Bang, TokenKind::BangEqual))
    } else if c == '=' {
        Some((TokenKind::Equal, TokenKind::EqualEqual))
    } else if c == '<' {
        Some((TokenKind::Less, TokenKind::LessEqual))
    } else if c == '>' {
        Some((TokenKind::Greater, TokenKind::GreaterEqual))
    } else {
        None
    }
}

/// Message carried by the token made for a character the language does not know.
pub open spec fn unexpected_char_message() -> Seq<char> {
    seq!['U', 'n', 'e', 'x', 'p', 'e', 'c', 't', 'e', 'd', ' ', 'c', 'h', 'a', 'r', 'a', 'c', 't', 'e', 'r', '.']
}

/// Errors of the scanner.
#[derive(Debug, Clone, Copy, PartialEq, Eq, Structural)]
pub enum ScanError {
    UnexpectEnd,
    UnterminatedString,
}

pub open spec fn token_at(kind: TokenKind, lexeme: Seq<char>, line: nat, column: int) -> TokenView {
    TokenView { kind, lexeme, line, column: column as nat }
}

/// Scan one token whose first character is at `start` (not blank, not at end).
/// Returns the token, the index after it, and the line counters after it.
pub open spec fn scan_one(s: Seq<char>, start: int, line: nat, ls: int) -> Result<(TokenView, int, nat, int), ScanError> {
    let c = s[start];
    let col = start - ls + 1;
    if is_digit_spec(c) {
        let e = number_end(s, start);
        Ok((token_at(TokenKind::Number, s.subrange(start, e), line, col), e, line, ls))
    } else if is_alpha_spec(c) {
        let e = ident_end(s, start + 1);
        let w = s.subrange(start, e);
        Ok((token_at(keyword_kind(w), w, line, col), e, line, ls))
    } else if single_char_kind(c) is Some {
        Ok((token_at(single_char_kind(c)->0, s.subrange(start, start + 1), line, col), start + 1, line, ls))
    } else if compare_kinds(c) is Some {
        let (k1, k2) = compare_kinds(c)->0;
        if start + 1 < s.len() && s[start + 1] == '=' {
            Ok((token_at(k2, s.subrange(start, start + 2), line, col), start + 2, line, ls))
        } else {
            Ok((token_at(k1, s.subrange(start, start + 1), line, col), start + 1, line, ls))
        }
    } else if c == '~' && start + 1 < s.len() && s[start + 1] == '/' {
        Ok((token_at(TokenKind::TildeSlash, s.subrange(start, start + 2), line, col), start + 2, line, ls))
    } else if c == '"' {
        match string_body(s, start + 1, line, ls) {
            None => Err(ScanError::UnterminatedString),
            Some((e, l2, ls2)) => Ok((token_at(TokenKind::String, s.subrange(start, e), l2, col), e, l2, ls2)),
        }
    } else {
        Ok((token_at(TokenKind::Error, unexpected_char_message(), line, col), start + 1, line, ls))
    }
}

/// One step of the scanner from index `i`: skip blanks, then either the
/// end-of-file token or the next token.
pub open spec fn scan_step(s: Seq<char>, i: int, line: nat, ls: int) -> Result<(TokenView, int, nat, int), ScanError> {
    let (p, l, lst) = skip_ws(s, i, line, ls);
    if p >= s.len() {
        Ok((token_at(TokenKind::Eof, Seq::empty(), l, p - lst + 1), p, l, lst))
    } else {
        scan_one(s, p, l, lst)
    }
}

/// The whole token stream from index `i`, ending with the end-of-file token,
/// or the first scan error.
pub open spec fn scan_all(s: Seq<char>, i: int, line: nat, ls: int) -> Result<Seq<TokenView>, ScanError>
    decreases s.len() - i,
{
    match scan_step(s, i, line, ls) {
        Err(e) => Err(e),
        Ok((t, e, l2, ls2)) => {
            if t.kind == TokenKind::Eof || !(i < e <= s.len()) {
                Ok(seq![t])
            } else {
                match scan_all(s, e, l2, ls2) {
                    Err(err) => Err(err),
                    Ok(rest) => Ok(seq![t] + rest),
                }
            }
        },
    }
}

/// The token stream of a whole source text.
pub open spec fn tokenize(s: Seq<char>) -> Result<Seq<TokenView>, ScanError> {
    scan_all(s, 0, 1, 0)
}

// ========================================================================== //
//                    Lemmas
// ========================================================================== //

proof fn lemma_digits_end(s: Seq<char>, i: int)
    requires
        0 <= i <= s.len(),
    ensures
        i <= digits_end(s, i) <= s.len(),
        forall|j: int| i <= j < digits_end(s, i) ==> is_digit_spec(#[trigger] s[j]),
    decreases s.len() - i,
{
    if i < s.len() && is_digit_spec(s[i]) {
        lemma_digits_end(s, i + 1);
    }
}

proof fn lemma_ident_end(s: Seq<char>, i: int)
    requires
        0 <= i <= s.len(),
    ensures
        i <= ident_end(s, i) <= s.len(),
    decreases s.len() - i,
{
    if i < s.len() && is_ident_char_spec(s[i]) {
        lemma_ident_end(s, i + 1);
    }
}

proof fn lemma_skip(s: Seq<char>, i: int, line: nat, ls: int, comment: bool)
    requires
        0 <= ls <= i <= s.len(),
    ensures
        ({
            let r = if comment { skip_comment(s, i, line, ls) } else { skip_ws(s, i, line, ls) };
            &&& i <= r.0 <= s.len()
            &&& 0 <= r.2 <= r.0
            &&& line <= r.1
            &&& r.1 <= line + (r.0 - i)
        }),
    decreases s.len() - i, if comment { 1int } else { 0int },
{
    if i < s.len() {
        let c = s[i];
        if comment {
            if c == '\n' {
                lemma_skip(s, i, line, ls, false);
            } else {
                lemma_skip(s, i + 1, line, ls, true);
            }
        } else {
            if c == ' ' || c == '\r' || c == '\t' {
                lemma_skip(s, i + 1, line, ls, false);
            } else if c == '\n' {
                lemma_skip(s, i + 1, line + 1, i + 1, false);
            } else if c == '/' && i + 1 < s.len() && s[i + 1] == '/' {
                lemma_skip(s, i + 2, line, ls, true);
            }
        }
    }
}

proof fn lemma_string_body(s: Seq<char>, i: int, line: nat, ls: int)
    requires
        0 <= ls <= i <= s.len(),
    ensures
        string_body(s, i, line, ls) matches Some(r) ==> {
            &&& i < r.0 <= s.len()
            &&& 0 <= r.2 <= r.0
            &&& line <= r.1 <= line + (r.0 - i)
        },
    decreases s.len() - i,
{
    if i < s.len() {
        if s[i] == '"' {
        } else if s[i] == '\n' {
            lemma_string_body(s, i + 1, line + 1, i + 1);
        } else {
            lemma_string_body(s, i + 1, line, ls);
        }
    }
}

/// Every step moves forward (or reaches the end) and keeps the counters sane.
proof fn lemma_scan_step(s: Seq<char>, i: int, line: nat, ls: int)
    requires
        0 <= ls <= i <= s.len(),
    ensures
        scan_step(s, i, line, ls) matches Ok((t, e, l2, ls2)) ==> {
            &&& i <= e <= s.len()
            &&& 0 <= ls2 <= e
            &&& line <= l2 <= line + (e - i)
            &&& t.line == l2
            &&& (t.kind == TokenKind::Eof <==> e == s.len() && skip_ws(s, i, line, ls).0 == s.len())
            &&& (t.kind != TokenKind::Eof ==> i < e)
        },
{
    lemma_skip(s, i, line, ls, false);
    let (p, l, lst) = skip_ws(s, i, line, ls);
    if p < s.len() {
        let c = s[p];
        if is_digit_spec(c) {
            lemma_digits_end(s, p + 1);
            let e = digits_end(s, p + 1);
            if e + 1 < s.len() && s[e] == '.' && is_digit_spec(s[e + 1]) {
                lemma_digits_end(s, e + 2);
            }
        } else if is_alpha_spec(c) {
            lemma_ident_end(s, p + 1);
            let w = s.subrange(p, ident_end(s, p + 1));
        } else if c == '"' {
            lemma_string_body(s, p + 1, l, lst);
        }
    }
}

/// A token stream that ends with its only end-of-file token, whose lines
/// start at `line` or after and never decrease.
pub open spec fn stream_shaped(ts: Seq<TokenView>, line: nat) -> bool {
    &&& ts.len() >= 1
    &&& ts.last().kind == TokenKind::Eof
    &&& forall|k: int| 0 <= k < ts.len() - 1 ==> (#[trigger] ts[k]).kind != TokenKind::Eof
    &&& forall|j: int, k: int| 0 <= j <= k < ts.len() ==> line <= (#[trigger] ts[j]).line <= (#[trigger] ts[k]).line
}

proof fn lemma_scan_all_shaped(s: Seq<char>, i: int, line: nat, ls: int)
    requires
        0 <= ls <= i <= s.len(),
    ensures
        scan_all(s, i, line, ls) matches Ok(ts) ==> stream_shaped(ts, line),
    decreases s.len() - i,
{
    lemma_scan_step(s, i, line, ls);
    match scan_step(s, i, line, ls) {
        Err(_) => {},
        Ok((t, e, l2, ls2)) => {
            if t.kind == TokenKind::Eof || !(i < e <= s.len()) {
                assert(seq![t].last() == t);
            } else {
                lemma_scan_all_shaped(s, e, l2, ls2);
                if let Ok(rest) = scan_all(s, e, l2, ls2) {
                    let ts = seq![t] + rest;
                    assert(ts.last() == rest.last());
                    assert forall|k: int| 0 <= k < ts.len() - 1 implies (#[trigger] ts[k]).kind != TokenKind::Eof by {
                        if k > 0 {
                            assert(ts[k] == rest[k - 1]);
                        }
                    }
                    assert forall|j: int, k: int| 0 <= j <= k < ts.len() implies line <= (#[trigger] ts[j]).line
                        <= (#[trigger] ts[k]).line by {
                        if k > 0 {
                            assert(ts[k] == rest[k - 1]);
                            assert(l2 <= rest[0].line <= rest[k - 1].line);
                        }
                        if j > 0 {
                            assert(ts[j] == rest[j - 1]);
                        }
                    }
                }
            }
        },
    }
}

/// The tokens of any text that scans end with exactly one end-of-file
/// token, the first is on line 1 or later, and line numbers never decrease.
pub proof fn lemma_tokenize_shaped(s: Seq<char>)
    ensures
        tokenize(s) matches Ok(ts) ==> stream_shaped(ts, 1),
{
    lemma_scan_all_shaped(s, 0, 1, 0);
}

} // verus!

verus! {

// ========================================================================== //
//                    Scanner
// ========================================================================== //

/// Build a `String` holding exactly the given characters.
#[verifier::external_body]
pub(crate) fn string_from_chars(chars: Vec<char>) -> (s: String)
    ensures
        s@ == chars@,
{
    String::from_iter(chars)
}

/// The characters of a string slice, in order.
pub fn chars_of(source: &str) -> (out: Vec<char>)
    ensures
        out@ == source@,
{
    let mut out: Vec<char> = Vec::new();
    for c in it: source.chars()
        invariant
            out@ == it.seq().take(it.index() as int),
            it.seq() == source@,
    {
        out.push(c);
    }
    out
}

/// Does `src[start..end]` spell `word`?
fn matches_word(src: &Vec<char>, start: usize, end: usize, word: &[char]) -> (b: bool)
    requires
        start <= end <= src@.len(),
    ensures
        b == (src@.subrange(start as int, end as int) == word@),
{
    if end - start != word.len() {
        return false;
    }
    let mut i: usize = 0;
    while i < word.len()
        invariant
            i <= word@.len(),
            end - start == word@.len(),
            start <= end <= src@.len(),
            forall|j: int| 0 <= j < i ==> src@[start + j] == word@[j],
        decreases word@.len() - i,
    {
        if src[start + i] != word[i] {
            assert(src@.subrange(start as int, end as int)[i as int] != word@[i as int]);
            return false;
        }
        i = i + 1;
    }
    assert(src@.subrange(start as int, end as int) =~= word@);
    true
}

/// Turns source text into tokens, one at a time.
pub struct Scanner {
    source: Vec<char>,
    start: usize,
    current: usize,
    line: usize,
    line_start: usize,
}

impl Scanner {
    /// The scanner's internal invariant.
    pub closed spec fn wf(&self) -> bool {
        &&& self.source@.len() < usize::MAX
        &&& self.start <= self.current
        &&& self.line_start <= self.current <= self.source@.len()
        &&& 1 <= self.line <= self.current + 1
    }

    /// The source text.
    pub closed spec fn text(&self) -> Seq<char> {
        self.source@
    }

    /// The current line number.
    pub closed spec fn line_no(&self) -> nat {
        self.line as nat
    }

    /// What scanning from the current position yields.
    pub closed spec fn remaining_tokens(&self) -> Result<Seq<TokenView>, ScanError> {
        scan_all(self.source@, self.current as int, self.line as nat, self.line_start as int)
    }

    /// A scanner positioned at the start of `source`, on line 1.
    pub fn new(source: &str) -> (r: Self)
        requires
            source@.len() < usize::MAX,
        ensures
            r.wf(),
            r.text() == source@,
            r.line_no() == 1,
            r.remaining_tokens() == tokenize(source@),
    {
        Scanner { source: chars_of(source), start: 0, current: 0, line: 1, line_start: 0 }
    }

    /// The line the scanner is on.
    pub fn line(&self) -> (l: usize)
        ensures
            l == self.line_no(),
    {
        self.line
    }

    /// Scan every remaining token.  On success the last token is the
    /// end-of-file token; on failure the first scan error is returned.
    pub fn scan_tokens(&mut self) -> (r: Result<Vec<Token>, ScanError>)
        requires
            old(self).wf(),
        ensures
            final(self).wf(),
            final(self).text() == old(self).text(),
            match old(self).remaining_tokens() {
                Ok(ts) => (r matches Ok(v) && tokens_view(v@) == ts && v@.len() > 0
                    && final(self).line_no() == v@.last().line),
                Err(e) => r == Err::<Vec<Token>, ScanError>(e),
            },
            r matches Ok(v) ==> v@.last().kind == TokenKind::Eof && v@.len() <= old(self).text().len() + 1,
    {
        let mut tokens: Vec<Token> = Vec::new();
        let ghost s = self.source@;
        let ghost total = old(self).remaining_tokens();
        loop
            invariant_except_break
                tokens@.len() <= self.current - old(self).current,
                match scan_all(s, self.current as int, self.line as nat, self.line_start as int) {
                    Ok(rest) => total == Ok::<Seq<TokenView>, ScanError>(tokens_view(tokens@) + rest),
                    Err(e) => total == Err::<Seq<TokenView>, ScanError>(e),
                },
            invariant
                self.wf(),
                self.source@ == s,
                s == old(self).source@,
                total == scan_all(s, old(self).current as int, old(self).line as nat, old(self).line_start as int),
                old(self).current <= self.current,
            ensures
                total == Ok::<Seq<TokenView>, ScanError>(tokens_view(tokens@)),
                tokens@.len() > 0,
                self.line == tokens@.last().line,
                tokens@.last().kind == TokenKind::Eof,
                tokens@.len() <= self.current - old(self).current + 1,
                old(self).current <= self.current,
            decreases s.len() - self.current,
        {
            let ghost cur = self.current as int;
            let ghost ln = self.line as nat;
            let ghost lst = self.line_start as int;
            proof {
                lemma_scan_step(s, cur, ln, lst);
            }
            let res = self.scan_token();
            match res {
                Err(e) => {
                    return Err(e);
                },
                Ok(token) => {
                    let is_eof = token.kind == TokenKind::Eof;
                    let ghost old_tokens = tokens@;
                    tokens.push(token);
                    proof {
                        assert(tokens_view(tokens@) =~= tokens_view(old_tokens) + seq![token@]);
                        if !is_eof {
                            assert(cur < self.current <= s.len());
                            assert(tokens_view(old_tokens) + seq![token@] + seq![] =~= tokens_view(old_tokens) + seq![token@]);
                            match scan_all(s, self.current as int, self.line as nat, self.line_start as int) {
                                Ok(rest) => {
                                    assert(tokens_view(old_tokens) + (seq![token@] + rest) =~= tokens_view(tokens@) + rest);
                                },
                                Err(e) => {},
                            }
                        } else {
                            assert(tokens_view(old_tokens) + seq![token@] =~= tokens_view(tokens@));
                        }
                    }
                    if is_eof {
                        break;
                    }
                },
            }
        }
        Ok(tokens)
    }

    /// Scan the next token.
    fn scan_token(&mut self) -> (r: Result<Token, ScanError>)
        requires
            old(self).wf(),
        ensures
            final(self).wf(),
            final(self).source@ == old(self).source@,
            match scan_step(old(self).source@, old(self).current as int, old(self).line as nat, old(self).line_start as int) {
                Ok((t, e, l2, ls2)) => (r matches Ok(tok) && tok@ == t && final(self).current == e
                    && final(self).line == l2 && final(self).line_start == ls2),
                Err(err) => r == Err::<Token, ScanError>(err),
            },
    {
        proof {
            lemma_scan_step(self.source@, self.current as int, self.line as nat, self.line_start as int);
            lemma_skip(self.source@, self.current as int, self.line as nat, self.line_start as int, false);
        }
        self.skip_whitespace();
        self.start = self.current;
        let column = self.current - self.line_start + 1;
        if self.current >= self.source.len() {
            proof {
                assert(self.source@.subrange(self.start as int, self.current as int) =~= Seq::<char>::empty());
            }
            return Ok(self.make_token(TokenKind::Eof, column));
        }
        let c = self.source[self.current];
        self.current = self.current + 1;

        if is_digit(c) {
            return Ok(self.number(column));
        }
        if is_alpha(c) {
            return Ok(self.identifier(column));
        }
        if c == '(' {
            Ok(self.make_token(TokenKind::LeftParen, column))
        } else if c == ')' {
            Ok(self.make_token(TokenKind::RightParen, column))
        } else if c == '{' {
            Ok(self.make_token(TokenKind::LeftBrace, column))
        } else if c == '}' {
            Ok(self.make_token(TokenKind::RightBrace, column))
        } else if c == '[' {
            Ok(self.make_token(TokenKind::LeftBracket, column))
        } else if c == ']' {
            Ok(self.make_token(TokenKind::RightBracket, column))
        } else if c == ',' {
            Ok(self.make_token(TokenKind::Comma, column))
        } else if c == '.' {
            Ok(self.make_token(TokenKind::Dot, column))
        } else if c == '-' {
            Ok(self.make_token(TokenKind::Minus, column))
        } else if c == '+' {
            Ok(self.make_token(TokenKind::Plus, column))
        } else if c == ';' {
            Ok(self.make_token(TokenKind::Semicolon, column))
        } else if c == '/' {
            Ok(self.make_token(TokenKind::Slash, column))
        } else if c == ':' {
            Ok(self.make_token(TokenKind::Colon, column))
        } else if c == '*' {
            Ok(self.make_token(TokenKind::Star, column))
        } else if c == '%' {
            Ok(self.make_token(TokenKind::Percent, column))
        } else if c == '!' {
            let kind = if self.match_then_advance('=') { TokenKind::BangEqual } else { TokenKind::Bang };
            Ok(self.make_token(kind, column))
        } else if c == '=' {
            let kind = if self.match_then_advance('=') { TokenKind::EqualEqual } else { TokenKind::Equal };
            Ok(self.make_token(kind, column))
        } else if c == '<' {
            let kind = if self.match_then_advance('=') { TokenKind::LessEqual } else { TokenKind::Less };
            Ok(self.make_token(kind, column))
        } else if c == '>' {
            let kind = if self.match_then_advance('=') { TokenKind::GreaterEqual } else { TokenKind::Greater };
            Ok(self.make_token(kind, column))
        } else if c == '~' && self.match_then_advance('/') {
            Ok(self.make_token(TokenKind::TildeSlash, column))
        } else if c == '"' {
            self.string(column)
        } else {
            Ok(self.error_token(column))
        }
    }

    /// Consume the next character when it is `expected`.
    fn match_then_advance(&mut self, expected: char) -> (b: bool)
        requires
            old(self).wf(),
        ensures
            final(self).wf(),
            final(self).source@ == old(self).source@,
            final(self).start == old(self).start,
            final(self).line == old(self).line,
            final(self).line_start == old(self).line_start,
            b == (old(self).current < old(self).source@.len() && old(self).source@[old(self).current as int] == expected),
            final(self).current == if b { old(self).current + 1 } else { old(self).current as int },
    {
        if self.current >= self.source.len() {
            return false;
        }
        if self.source[self.current] != expected {
            false
        } else {
            self.current = self.current + 1;
            true
        }
    }

    /// The characters `source[from..to]`.
    fn slice(&self, from: usize, to: usize) -> (v: Vec<char>)
        requires
            from <= to <= self.source@.len(),
        ensures
            v@ == self.source@.subrange(from as int, to as int),
    {
        let mut v: Vec<char> = Vec::new();
        let mut i = from;
        while i < to
            invariant
                from <= i <= to <= self.source@.len(),
                v@ == self.source@.subrange(from as int, i as int),
            decreases to - i,
        {
            v.push(self.source[i]);
            i = i + 1;
            proof {
                assert(v@ =~= self.source@.subrange(from as int, i as int));
            }
        }
        v
    }

    fn make_token(&self, kind: TokenKind, column: usize) -> (t: Token)
        requires
            self.wf(),
        ensures
            t@ == token_at(kind, self.source@.subrange(self.start as int, self.current as int), self.line as nat, column as int),
    {
        let lexeme = string_from_chars(self.slice(self.start, self.current));
        Token { kind, lexeme, line: self.line, column }
    }

    fn error_token(&self, column: usize) -> (t: Token)
        ensures
            t@ == token_at(TokenKind::Error, unexpected_char_message(), self.line as nat, column as int),
    {
        let message = vec!['U', 'n', 'e', 'x', 'p', 'e', 'c', 't', 'e', 'd', ' ', 'c', 'h', 'a', 'r', 'a', 'c', 't', 'e', 'r', '.'];
        proof {
            assert(message@ =~= unexpected_char_message());
        }
        Token { kind: TokenKind::Error, lexeme: string_from_chars(message), line: self.line, column }
    }

    fn number(&mut self, column: usize) -> (t: Token)
        requires
            old(self).wf(),
            old(self).start + 1 == old(self).current,
            is_digit_spec(old(self).source@[old(self).start as int]),
        ensures
            final(self).wf(),
            final(self).source@ == old(self).source@,
            final(self).start == old(self).start,
            final(self).line == old(self).line,
            final(self).line_start == old(self).line_start,
            final(self).current == number_end(old(self).source@, old(self).start as int),
            t@ == token_at(TokenKind::Number, old(self).source@.subrange(old(self).start as int, final(self).current as int),
                old(self).line as nat, column as int),
    {
        let ghost s = self.source@;
        proof {
            lemma_digits_end(s, self.current as int);
        }
        while self.current < self.source.len() && is_digit(self.source[self.current])
            invariant
                self.wf(),
                self.source@ == s,
                s == old(self).source@,
                self.start == old(self).start,
                self.line == old(self).line,
                self.line_start == old(self).line_start,
                digits_end(s, self.current as int) == digits_end(s, old(self).current as int),
            decreases s.len() - self.current,
        {
            self.current = self.current + 1;
        }
        // Look for a fractional part.
        if self.current + 1 < self.source.len() && self.source[self.current] == '.' && is_digit(self.source[self.current + 1]) {
            self.current = self.current + 2;
            proof {
                lemma_digits_end(s, self.current as int);
            }
            while self.current < self.source.len() && is_digit(self.source[self.current])
                invariant
                    self.wf(),
                    self.source@ == s,
                    s == old(self).source@,
                    self.start == old(self).start,
                    self.line == old(self).line,
                    self.line_start == old(self).line_start,
                    digits_end(s, self.current as int) == number_end(s, old(self).start as int),
                decreases s.len() - self.current,
            {
                self.current = self.current + 1;
            }
        }
        self.make_token(TokenKind::Number, column)
    }

    fn identifier(&mut self, column: usize) -> (t: Token)
        requires
            old(self).wf(),
            old(self).start + 1 == old(self).current,
            is_alpha_spec(old(self).source@[old(self).start as int]),
        ensures
            final(self).wf(),
            final(self).source@ == old(self).source@,
            final(self).start == old(self).start,
            final(self).line == old(self).line,
            final(self).line_start == old(self).line_start,
            final(self).current == ident_end(old(self).source@, old(self).current as int),
            ({
                let w = old(self).source@.subrange(old(self).start as int, final(self).current as int);
                t@ == token_at(keyword_kind(w), w, old(self).line as nat, column as int)
            }),
    {
        let ghost s = self.source@;
        proof {
            lemma_ident_end(s, self.current as int);
        }
        while self.current < self.source.len() && (is_alpha(self.source[self.current]) || is_digit(self.source[self.current]))
            invariant
                self.wf(),
                self.source@ == s,
                s == old(self).source@,
                self.start == old(self).start,
                self.line == old(self).line,
                self.line_start == old(self).line_start,
                ident_end(s, self.current as int) == ident_end(s, old(self).current as int),
            decreases s.len() - self.current,
        {
            self.current = self.current + 1;
        }
        let kind = self.identifier_type();
        self.make_token(kind, column)
    }

    fn identifier_type(&self) -> (k: TokenKind)
        requires
            self.wf(),
        ensures
            k == keyword_kind(self.source@.subrange(self.start as int, self.current as int)),
            k == TokenKind::Identifier
                || keyword_text(k) == Some(self.source@.subrange(self.start as int, self.current as int)),
    {
        let src = &self.source;
        let (a, b) = (self.start, self.current);
        proof {
            let w = self.source@.subrange(a as int, b as int);
            lemma_keyword_is_whole_word(w);
            assert(seq!['a', 'n', 'd'] =~= ['a', 'n', 'd']@);
        }
        if matches_word(src, a, b, &['a', 'n', 'd']) {
            TokenKind::And
        } else if matches_word(src, a, b, &['a', 's']) {
            TokenKind::As
        } else if matches_word(src, a, b, &['b', 'r', 'e', 'a', 'k']) {
            TokenKind::Break
        } else if matches_word(src, a, b, &['c', 'l', 'a', 's', 's']) {
            TokenKind::Class
        } else if matches_word(src, a, b, &['c', 'o', 'n', 't', 'i', 'n', 'u', 'e']) {
            TokenKind::Continue
        } else if matches_word(src, a, b, &['e', 'l', 's', 'e']) {
            TokenKind::Else
        } else if matches_word(src, a, b, &['e', 'x', 't', 'e', 'n', 'd', 's']) {
            TokenKind::Extends
        } else if matches_word(src, a, b, &['f', 'a', 'l', 's', 'e']) {
            TokenKind::False
        } else if matches_word(src, a, b, &['f', 'o', 'r']) {
            TokenKind::For
        } else if matches_word(src, a, b, &['f', 'u', 'n']) {
            TokenKind::Fun
        } else if matches_word(src, a, b, &['i', 'f']) {
            TokenKind::If
        } else if matches_word(src, a, b, &['i', 'n']) {
            TokenKind::In
        } else if matches_word(src, a, b, &['i', 'm', 'p', 'o', 'r', 't']) {
            TokenKind::Import
        } else if matches_word(src, a, b, &['n', 'i', 'l']) {
            TokenKind::Nil
        } else if matches_word(src, a, b, &['o', 'r']) {
            TokenKind::Or
        } else if matches_word(src, a, b, &['p', 'r', 'i', 'n', 't']) {
            TokenKind::Print
        } else if matches_word(src, a, b, &['r', 'e', 't', 'u', 'r', 'n']) {
            TokenKind::Return
        } else if matches_word(src, a, b, &['s', 'u', 'p', 'e', 'r']) {
            TokenKind::Super
        } else if matches_word(src, a, b, &['t', 'h', 'i', 's']) {
            TokenKind::This
        } else if matches_word(src, a, b, &['t', 'r', 'u', 'e']) {
            TokenKind::True
        } else if matches_word(src, a, b, &['v', 'a', 'r']) {
            TokenKind::Var
        } else if matches_word(src, a, b, &['w', 'h', 'i', 'l', 'e']) {
            TokenKind::While
        } else {
            TokenKind::Identifier
        }
    }

    fn string(&mut self, column: usize) -> (r: Result<Token, ScanError>)
        requires
            old(self).wf(),
            old(self).start + 1 == old(self).current,
        ensures
            final(self).wf(),
            final(self).source@ == old(self).source@,
            match string_body(old(self).source@, old(self).current as int, old(self).line as nat, old(self).line_start as int) {
                None => r == Err::<Token, ScanError>(ScanError::UnterminatedString),
                Some((e, l2, ls2)) => (r matches Ok(t) && final(self).current == e && final(self).line == l2
                    && final(self).line_start == ls2
                    && t@ == token_at(TokenKind::String, old(self).source@.subrange(old(self).start as int, e), l2, column as int)),
            },
    {
        let ghost s = self.source@;
        let ghost target = string_body(s, self.current as int, self.line as nat, self.line_start as int);
        loop
            invariant_except_break
                string_body(s, self.current as int, self.line as nat, self.line_start as int) == target,
            invariant
                self.wf(),
                self.source@ == s,
                s == old(self).source@,
                self.start == old(self).start,
                target == string_body(s, old(self).current as int, old(self).line as nat, old(self).line_start as int),
            ensures
                target == Some((self.current as int, self.line as nat, self.line_start as int)),
            decreases s.len() - self.current,
        {
            if self.current >= self.source.len() {
                return Err(ScanError::UnterminatedString);
            }
            let c = self.source[self.current];
            self.current = self.current + 1;
            if c == '"' {
                break;
            }
            if c == '\n' {
                self.line = self.line + 1;
                self.line_start = self.current;
            }
        }
        Ok(self.make_token(TokenKind::String, column))
    }

    fn skip_whitespace(&mut self)
        requires
            old(self).wf(),
        ensures
            final(self).wf(),
            final(self).source@ == old(self).source@,
            final(self).start == old(self).start,
            (final(self).current as int, final(self).line as nat, final(self).line_start as int)
                == skip_ws(old(self).source@, old(self).current as int, old(self).line as nat, old(self).line_start as int),
    {
        let ghost s = self.source@;
        let ghost target = skip_ws(s, self.current as int, self.line as nat, self.line_start as int);
        loop
            invariant
                self.wf(),
                self.source@ == s,
                s == old(self).source@,
                self.start == old(self).start,
                skip_ws(s, self.current as int, self.line as nat, self.line_start as int) == target,
                target == skip_ws(s, old(self).current as int, old(self).line as nat, old(self).line_start as int),
            decreases s.len() - self.current,
        {
            if self.current >= self.source.len() {
                return;
            }
            let ghost iter_start = self.current;
            let c = self.source[self.current];
            if c == ' ' || c == '\r' || c == '\t' {
                self.current = self.current + 1;
            } else if c == '\n' {
                self.line = self.line + 1;
                self.current = self.current + 1;
                self.line_start = self.current;
            } else if c == '/' && self.current + 1 < self.source.len() && self.source[self.current + 1] == '/' {
                // Line comment: consume up to the end of the line.
                self.current = self.current + 2;
                let ghost after_slashes = self.current;
                while self.current < self.source.len() && self.source[self.current] != '\n'
                    invariant
                        after_slashes <= self.current,
                        self.wf(),
                        self.source@ == s,
                        s == old(self).source@,
                        self.start == old(self).start,
                        skip_comment(s, self.current as int, self.line as nat, self.line_start as int) == target,
                        target == skip_ws(s, old(self).current as int, old(self).line as nat, old(self).line_start as int),
                    decreases s.len() - self.current,
                {
                    self.current = self.current + 1;
                }
                if self.current >= self.source.len() {
                    return;
                }
            } else {
                return;
            }
        }
    }
}

/// Scan a whole source text.
pub fn scan(source: &str) -> (r: Result<Vec<Token>, ScanError>)
    requires
        source@.len() < usize::MAX,
    ensures
        match tokenize(source@) {
            Ok(ts) => r matches Ok(v) && tokens_view(v@) == ts,
            Err(e) => r == Err::<Vec<Token>, ScanError>(e),
        },
        r matches Ok(v) ==> v@.len() >= 1 && v@.last().kind == TokenKind::Eof && v@.len() <= source@.len() + 1,
{
    let mut scanner = Scanner::new(source);
    scanner.scan_tokens()
}

} // verus!
