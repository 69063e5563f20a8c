use vstd::prelude::*;

use crate::chunk::{const_count, encodable, model, Chunk, Layout};
use crate::heap::{bool_of, int_of, lemma_only_adds_refl, str_of, ObjectHeap};
use crate::instruct::{ByteCode, Instruction, UpvalueDesc};
use crate::object::{InstanceData, Object, ObjectHandle};
use crate::program::{
    compiled_function, decodes_as, is_forward_jump, jump_site, keeps_sites, laid_out, lemma_decode_program, lemma_laid_out_bounds,
    lemma_end_start, lemma_laid_out_empty,
    lemma_laid_out_push, lemma_start_increases, lemma_names_hold_grow, lemma_names_hold_push, lemma_patch, names_hold, patched, start_of, well_compiled,
};
use crate::scan::{chars_of, scan, string_from_chars, tokenize, ScanError};
use crate::token::{tokens_view, Token, TokenKind, TokenView};

verus! {

// ========================================================================== //
//                    Precedence
// ========================================================================== //

/// Binding strength of operators, from loosest to tightest.
#[derive(Debug, Clone, Copy, PartialEq, Eq, Structural)]
pub enum Prec {
    Lowest,
    Assignment,
    Or,
    And,
    Equality,
    Comparison,
    Term,
    Factor,
    Unary,
    Call,
    Primary,
}

impl Prec {
    /// The position of the level in the order, from 0 (`None`) to 10
    /// (`Primary`).
    pub open spec fn rank(self) -> int {
        match self {
            Prec::Lowest => 0,
            Prec::Assignment => 1,
            Prec::Or => 2,
            Prec::And => 3,
            Prec::Equality => 4,
            Prec::Comparison => 5,
            Prec::Term => 6,
            Prec::Factor => 7,
            Prec::Unary => 8,
            Prec::Call => 9,
            Prec::Primary => 10,
        }
    }

    /// The next tighter level; `Primary` is the tightest.
    pub open spec fn tighter(self) -> Prec {
        match self {
            Prec::Lowest => Prec::Assignment,
            Prec::Assignment => Prec::Or,
            Prec::Or => Prec::And,
            Prec::And => Prec::Equality,
            Prec::Equality => Prec::Comparison,
            Prec::Comparison => Prec::Term,
            Prec::Term => Prec::Factor,
            Prec::Factor => Prec::Unary,
            Prec::Unary => Prec::Call,
            Prec::Call => Prec::Primary,
            Prec::Primary => Prec::Primary,
        }
    }

    /// The next tighter level; `Primary` is the tightest.
    pub fn next(self) -> (p: Prec)
        ensures
            p.rank() == if self.rank() < 10 { self.rank() + 1 } else { 10 },
            p == self.tighter(),
    {
        match self {
            Prec::Lowest => Prec::Assignment,
            Prec::Assignment => Prec::Or,
            Prec::Or => Prec::And,
            Prec::And => Prec::Equality,
            Prec::Equality => Prec::Comparison,
            Prec::Comparison => Prec::Term,
            Prec::Term => Prec::Factor,
            Prec::Factor => Prec::Unary,
            Prec::Unary => Prec::Call,
            Prec::Call => Prec::Primary,
            Prec::Primary => Prec::Primary,
        }
    }

    /// `self` binds more loosely than `other`.
    pub fn looser_than(self, other: Prec) -> (b: bool)
        ensures
            b == (self.rank() < other.rank()),
    {
        self.to_rank() < other.to_rank()
    }

    fn to_rank(self) -> (r: u8)
        ensures
            r == self.rank(),
    {
        match self {
            Prec::Lowest => 0,
            Prec::Assignment => 1,
            Prec::Or => 2,
            Prec::And => 3,
            Prec::Equality => 4,
            Prec::Comparison => 5,
            Prec::Term => 6,
            Prec::Factor => 7,
            Prec::Unary => 8,
            Prec::Call => 9,
            Prec::Primary => 10,
        }
    }
}

/// The level ranks are distinct, so the order is total.
pub proof fn lemma_rank_injective(a: Prec, b: Prec)
    ensures
        a.rank() == b.rank() <==> a == b,
        0 <= a.rank() <= 10,
{
}

// ========================================================================== //
//                    Parse rule table
// ========================================================================== //

/// Parsers for a token that starts an expression.
#[derive(Debug, Clone, Copy, PartialEq, Eq, Structural)]
pub enum PrefixRule {
    Grouping,
    DictLiteral,
    ListLiteral,
    Unary,
    Variable,
    StringLiteral,
    Number,
    Literal,
    ImportExpr,
    Super,
}

/// Parsers for a token that continues an expression.
#[derive(Debug, Clone, Copy, PartialEq, Eq, Structural)]
pub enum InfixRule {
    Call,
    Index,
    Dot,
    Binary,
    And,
    Or,
}

/// How a token takes part in an expression.
#[derive(Debug, Clone, Copy, PartialEq, Eq, Structural)]
pub struct ParseRule {
    pub prefix: Option<PrefixRule>,
    pub infix: Option<InfixRule>,
    pub precedence: Prec,
}

pub open spec fn rule(prefix: Option<PrefixRule>, infix: Option<InfixRule>, precedence: Prec) -> ParseRule {
    ParseRule { prefix, infix, precedence }
}

/// The parse rule of every token kind.
pub open spec fn rule_of(kind: TokenKind) -> ParseRule {
    match kind {
        TokenKind::LeftParen => rule(Some(PrefixRule::Grouping), Some(InfixRule::Call), Prec::Call),
        TokenKind::LeftBrace => rule(Some(PrefixRule::DictLiteral), None, Prec::Call),
        TokenKind::LeftBracket => rule(Some(PrefixRule::ListLiteral), Some(InfixRule::Index), Prec::Call),
        TokenKind::Dot => rule(None, Some(InfixRule::Dot), Prec::Call),
        TokenKind::Minus => rule(Some(PrefixRule::Unary), Some(InfixRule::Binary), Prec::Term),
        TokenKind::Plus => rule(None, Some(InfixRule::Binary), Prec::Term),
        TokenKind::Slash | TokenKind::Star | TokenKind::Percent | TokenKind::TildeSlash =>
            rule(None, Some(InfixRule::Binary), Prec::Factor),
        TokenKind::Bang => rule(Some(PrefixRule::Unary), None, Prec::Lowest),
        TokenKind::BangEqual | TokenKind::EqualEqual => rule(None, Some(InfixRule::Binary), Prec::Equality),
        TokenKind::Greater | TokenKind::GreaterEqual | TokenKind::Less | TokenKind::LessEqual =>
            rule(None, Some(InfixRule::Binary), Prec::Comparison),
        TokenKind::Identifier | TokenKind::Print | TokenKind::This => rule(Some(PrefixRule::Variable), None, Prec::Lowest),
        TokenKind::String => rule(Some(PrefixRule::StringLiteral), None, Prec::Lowest),
        TokenKind::Number => rule(Some(PrefixRule::Number), None, Prec::Lowest),
        TokenKind::And => rule(None, Some(InfixRule::And), Prec::And),
        TokenKind::False | TokenKind::Nil | TokenKind::True => rule(Some(PrefixRule::Literal), None, Prec::Lowest),
        TokenKind::Import => rule(Some(PrefixRule::ImportExpr), None, Prec::Call),
        TokenKind::Or => rule(None, Some(InfixRule::Or), Prec::Or),
        TokenKind::Super => rule(Some(PrefixRule::Super), None, Prec::Lowest),
        _ => rule(None, None, Prec::Lowest),
    }
}

/// The parse rule for a token kind.
pub fn get_rule(kind: TokenKind) -> (r: ParseRule)
    ensures
        r == rule_of(kind),
{
    match kind {
        TokenKind::LeftParen => ParseRule { prefix: Some(PrefixRule::Grouping), infix: Some(InfixRule::Call), precedence: Prec::Call },
        TokenKind::RightParen => ParseRule { prefix: None, infix: None, precedence: Prec::Lowest },
        TokenKind::LeftBrace => ParseRule { prefix: Some(PrefixRule::DictLiteral), infix: None, precedence: Prec::Call },
        TokenKind::RightBrace => ParseRule { prefix: None, infix: None, precedence: Prec::Lowest },
        TokenKind::LeftBracket => ParseRule { prefix: Some(PrefixRule::ListLiteral), infix: Some(InfixRule::Index), precedence: Prec::Call },
        TokenKind::RightBracket => ParseRule { prefix: None, infix: None, precedence: Prec::Lowest },
        TokenKind::Comma => ParseRule { prefix: None, infix: None, precedence: Prec::Lowest },
        TokenKind::Colon => ParseRule { prefix: None, infix: None, precedence: Prec::Lowest },
        TokenKind::Dot => ParseRule { prefix: None, infix: Some(InfixRule::Dot), precedence: Prec::Call },
        TokenKind::Minus => ParseRule { prefix: Some(PrefixRule::Unary), infix: Some(InfixRule::Binary), precedence: Prec::Term },
        TokenKind::Plus => ParseRule { prefix: None, infix: Some(InfixRule::Binary), precedence: Prec::Term },
        TokenKind::Semicolon => ParseRule { prefix: None, infix: None, precedence: Prec::Lowest },
        TokenKind::Slash => ParseRule { prefix: None, infix: Some(InfixRule::Binary), precedence: Prec::Factor },
        TokenKind::Star => ParseRule { prefix: None, infix: Some(InfixRule::Binary), precedence: Prec::Factor },
        TokenKind::Percent => ParseRule { prefix: None, infix: Some(InfixRule::Binary), precedence: Prec::Factor },
        TokenKind::TildeSlash => ParseRule { prefix: None, infix: Some(InfixRule::Binary), precedence: Prec::Factor },
        TokenKind::Bang => ParseRule { prefix: Some(PrefixRule::Unary), infix: None, precedence: Prec::Lowest },
        TokenKind::BangEqual => ParseRule { prefix: None, infix: Some(InfixRule::Binary), precedence: Prec::Equality },
        TokenKind::Equal => ParseRule { prefix: None, infix: None, precedence: Prec::Lowest },
        TokenKind::EqualEqual => ParseRule { prefix: None, infix: Some(InfixRule::Binary), precedence: Prec::Equality },
        TokenKind::Greater => ParseRule { prefix: None, infix: Some(InfixRule::Binary), precedence: Prec::Comparison },
        TokenKind::GreaterEqual => ParseRule { prefix: None, infix: Some(InfixRule::Binary), precedence: Prec::Comparison },
        TokenKind::Less => ParseRule { prefix: None, infix: Some(InfixRule::Binary), precedence: Prec::Comparison },
        TokenKind::LessEqual => ParseRule { prefix: None, infix: Some(InfixRule::Binary), precedence: Prec::Comparison },
        TokenKind::Identifier => ParseRule { prefix: Some(PrefixRule::Variable), infix: None, precedence: Prec::Lowest },
        TokenKind::String => ParseRule { prefix: Some(PrefixRule::StringLiteral), infix: None, precedence: Prec::Lowest },
        TokenKind::Number => ParseRule { prefix: Some(PrefixRule::Number), infix: None, precedence: Prec::Lowest },
        TokenKind::And => ParseRule { prefix: None, infix: Some(InfixRule::And), precedence: Prec::And },
        TokenKind::As => ParseRule { prefix: None, infix: None, precedence: Prec::Lowest },
        TokenKind::Break => ParseRule { prefix: None, infix: None, precedence: Prec::Lowest },
        TokenKind::Class => ParseRule { prefix: None, infix: None, precedence: Prec::Lowest },
        TokenKind::Continue => ParseRule { prefix: None, infix: None, precedence: Prec::Lowest },
        TokenKind::Else => ParseRule { prefix: None, infix: None, precedence: Prec::Lowest },
        TokenKind::Extends => ParseRule { prefix: None, infix: None, precedence: Prec::Lowest },
        TokenKind::False => ParseRule { prefix: Some(PrefixRule::Literal), infix: None, precedence: Prec::Lowest },
        TokenKind::For => ParseRule { prefix: None, infix: None, precedence: Prec::Lowest },
        TokenKind::Fun => ParseRule { prefix: None, infix: None, precedence: Prec::Lowest },
        TokenKind::If => ParseRule { prefix: None, infix: None, precedence: Prec::Lowest },
        TokenKind::In => ParseRule { prefix: None, infix: None, precedence: Prec::Lowest },
        TokenKind::Import => ParseRule { prefix: Some(PrefixRule::ImportExpr), infix: None, precedence: Prec::Call },
        TokenKind::Nil => ParseRule { prefix: Some(PrefixRule::Literal), infix: None, precedence: Prec::Lowest },
        TokenKind::Or => ParseRule { prefix: None, infix: Some(InfixRule::Or), precedence: Prec::Or },
        TokenKind::Print => ParseRule { prefix: Some(PrefixRule::Variable), infix: None, precedence: Prec::Lowest },
        TokenKind::Return => ParseRule { prefix: None, infix: None, precedence: Prec::Lowest },
        TokenKind::Super => ParseRule { prefix: Some(PrefixRule::Super), infix: None, precedence: Prec::Lowest },
        TokenKind::This => ParseRule { prefix: Some(PrefixRule::Variable), infix: None, precedence: Prec::Lowest },
        TokenKind::True => ParseRule { prefix: Some(PrefixRule::Literal), infix: None, precedence: Prec::Lowest },
        TokenKind::Var => ParseRule { prefix: None, infix: None, precedence: Prec::Lowest },
        TokenKind::While => ParseRule { prefix: None, infix: None, precedence: Prec::Lowest },
        TokenKind::Error => ParseRule { prefix: None, infix: None, precedence: Prec::Lowest },
        TokenKind::Eof => ParseRule { prefix: None, infix: None, precedence: Prec::Lowest },
    }
}

// ========================================================================== //
//                    String literals
// ========================================================================== //

/// The character an escape letter stands for.
pub open spec fn escaped(c: char) -> Option<char> {
    if c == 'n' {
        Some('\n')
    } else if c == 'r' {
        Some('\r')
    } else if c == 't' {
        Some('\t')
    } else if c == '\\' {
        Some('\\')
    } else if c == '"' {
        Some('"')
    } else if c == '0' {
        Some('\0')
    } else {
        None
    }
}

/// The text a raw string literal body stands for, or the first character
/// after a backslash that starts no escape (a backslash when the body ends
/// in one).
pub open spec fn unescape(s: Seq<char>) -> Result<Seq<char>, char>
    decreases s.len(),
{
    if s.len() == 0 {
        Ok(Seq::empty())
    } else if s[0] == '\\' {
        if s.len() == 1 {
            Err('\\')
        } else {
            match escaped(s[1]) {
                None => Err(s[1]),
                Some(e) => match unescape(s.subrange(2, s.len() as int)) {
                    Ok(rest) => Ok(seq![e] + rest),
                    Err(c) => Err(c),
                },
            }
        }
    } else {
        match unescape(s.subrange(1, s.len() as int)) {
            Ok(rest) => Ok(seq![s[0]] + rest),
            Err(c) => Err(c),
        }
    }
}

fn escape_char(c: char) -> (r: Option<char>)
    ensures
        r == escaped(c),
{
    if c == 'n' {
        Some('\n')
    } else if c == 'r' {
        Some('\r')
    } else if c == 't' {
        Some('\t')
    } else if c == '\\' {
        Some('\\')
    } else if c == '"' {
        Some('"')
    } else if c == '0' {
        Some('\0')
    } else {
        None
    }
}

/// Unescape from index `i` on: the text and the error are those of the
/// suffix.
proof fn lemma_unescape_suffix(s: Seq<char>, i: int)
    requires
        0 <= i <= s.len(),
    ensures
        i < s.len() && s[i] != '\\' ==> unescape(s.subrange(i, s.len() as int)) == match unescape(s.subrange(i + 1, s.len() as int)) {
            Ok(rest) => Ok::<Seq<char>, char>(seq![s[i]] + rest),
            Err(c) => Err(c),
        },
        i + 1 < s.len() && s[i] == '\\' ==> unescape(s.subrange(i, s.len() as int)) == match escaped(s[i + 1]) {
            None => Err::<Seq<char>, char>(s[i + 1]),
            Some(e) => match unescape(s.subrange(i + 2, s.len() as int)) {
                Ok(rest) => Ok::<Seq<char>, char>(seq![e] + rest),
                Err(c) => Err(c),
            },
        },
        i + 1 == s.len() && s[i] == '\\' ==> unescape(s.subrange(i, s.len() as int)) == Err::<Seq<char>, char>('\\'),
{
    let t = s.subrange(i, s.len() as int);
    if i < s.len() {
        assert(t[0] == s[i]);
        assert(t.subrange(1, t.len() as int) =~= s.subrange(i + 1, s.len() as int));
        if i + 1 < s.len() {
            assert(t[1] == s[i + 1]);
            assert(t.subrange(2, t.len() as int) =~= s.subrange(i + 2, s.len() as int));
        }
    }
}

/// Process the escape sequences of a string literal body (the text
/// between the quotes).  On an unknown escape, the character after the
/// backslash is returned; on a trailing backslash, the backslash.
pub fn unescape_string(raw: &str) -> (r: Result<String, char>)
    ensures
        match unescape(raw@) {
            Ok(t) => r matches Ok(s) && s@ == t,
            Err(c) => r == Err::<String, char>(c),
        },
{
    let chars = chars_of(raw);
    let n = chars.len();
    let mut out: Vec<char> = Vec::new();
    let mut i: usize = 0;
    let ghost s = chars@;
    proof {
        assert(s.subrange(0, n as int) =~= s);
        match unescape(s) {
            Ok(t) => {
                assert(out@ + t =~= t);
            },
            Err(_) => {},
        }
    }
    while i < n
        invariant
            s == raw@,
            chars@ == s,
            n == s.len(),
            i <= n,
            match unescape(s.subrange(i as int, n as int)) {
                Ok(rest) => unescape(s) == Ok::<Seq<char>, char>(out@ + rest),
                Err(c) => unescape(s) == Err::<Seq<char>, char>(c),
            },
        decreases n - i,
    {
        proof {
            lemma_unescape_suffix(s, i as int);
        }
        let c = chars[i];
        if c == '\\' {
            if i + 1 >= n {
                return Err('\\');
            }
            match escape_char(chars[i + 1]) {
                Some(e) => {
                    let ghost before = out@;
                    out.push(e);
                    proof {
                        match unescape(s.subrange(i + 2, n as int)) {
                            Ok(rest) => {
                                assert(before + (seq![e] + rest) =~= out@ + rest);
                            },
                            Err(_) => {},
                        }
                    }
                    i = i + 2;
                },
                None => {
                    return Err(chars[i + 1]);
                },
            }
        } else {
            let ghost before = out@;
            out.push(c);
            proof {
                match unescape(s.subrange(i + 1, n as int)) {
                    Ok(rest) => {
                        assert(before + (seq![c] + rest) =~= out@ + rest);
                    },
                    Err(_) => {},
                }
            }
            i = i + 1;
        }
    }
    proof {
        assert(s.subrange(n as int, n as int) =~= Seq::<char>::empty());
        assert(out@ + Seq::<char>::empty() =~= out@);
    }
    Ok(string_from_chars(out))
}

// ========================================================================== //
//                    Integer literals
// ========================================================================== //

/// The value of a string of decimal digits.
pub open spec fn decimal_value(s: Seq<char>) -> int
    decreases s.len(),
{
    if s.len() == 0 {
        0
    } else {
        decimal_value(s.drop_last()) * 10 + (s.last() as int - '0' as int)
    }
}

pub open spec fn all_digits(s: Seq<char>) -> bool {
    forall|i: int| 0 <= i < s.len() ==> '0' <= #[trigger] s[i] <= '9'
}

pub(crate) proof fn lemma_decimal_value_nonneg(s: Seq<char>)
    requires
        all_digits(s),
    ensures
        decimal_value(s) >= 0,
    decreases s.len(),
{
    if s.len() > 0 {
        assert(all_digits(s.drop_last())) by {
            assert forall|i: int| 0 <= i < s.drop_last().len() implies '0' <= #[trigger] s.drop_last()[i] <= '9' by {
                assert(s.drop_last()[i] == s[i]);
            }
        }
        lemma_decimal_value_nonneg(s.drop_last());
        assert('0' <= s[s.len() - 1] <= '9');
    }
}

/// The `i64` written by a non-empty string of decimal digits, or `None`
/// when it is larger than `i64::MAX`.
pub fn parse_decimal_i64(digits: &Vec<char>) -> (r: Option<i64>)
    requires
        digits@.len() > 0,
        all_digits(digits@),
    ensures
        match r {
            Some(v) => v == decimal_value(digits@),
            None => decimal_value(digits@) > i64::MAX,
        },
{
    let mut acc: i64 = 0;
    let mut i: usize = 0;
    while i < digits.len()
        invariant
            i <= digits@.len(),
            all_digits(digits@),
            acc == decimal_value(digits@.subrange(0, i as int)),
            0 <= acc,
        decreases digits@.len() - i,
    {
        let d = digits[i];
        proof {
            assert('0' <= digits@[i as int] <= '9');
            let pre = digits@.subrange(0, i as int + 1);
            assert(pre.drop_last() =~= digits@.subrange(0, i as int));
            assert(pre.last() == d);
        }
        let dv: i64 = (d as u32 - '0' as u32) as i64;
        if acc > (i64::MAX - dv) / 10 {
            proof {
                assert(acc * 10 + dv > i64::MAX) by (nonlinear_arith)
                    requires acc > (i64::MAX - dv) / 10, 0 <= dv <= 9;
                lemma_decimal_grows(digits@, i as int + 1);
            }
            return None;
        }
        proof {
            assert(acc * 10 + dv <= i64::MAX) by (nonlinear_arith)
                requires acc <= (i64::MAX - dv) / 10, 0 <= dv <= 9, 0 <= acc;
        }
        acc = acc * 10 + dv;
        i = i + 1;
    }
    proof {
        assert(digits@.subrange(0, digits@.len() as int) =~= digits@);
    }
    Some(acc)
}

/// A longer digit string is worth at least as much as its prefix.
proof fn lemma_decimal_grows(s: Seq<char>, k: int)
    requires
        0 <= k <= s.len(),
        all_digits(s),
    ensures
        decimal_value(s) >= decimal_value(s.subrange(0, k)),
    decreases s.len() - k,
{
    if k < s.len() {
        lemma_decimal_grows(s, k + 1);
        let a = s.subrange(0, k);
        let b = s.subrange(0, k + 1);
        assert(b.drop_last() =~= a);
        assert('0' <= s[k] <= '9');
        assert(all_digits(a)) by {
            assert forall|i: int| 0 <= i < a.len() implies '0' <= #[trigger] a[i] <= '9' by {
                assert(a[i] == s[i]);
            }
        }
        lemma_decimal_value_nonneg(a);
        assert(decimal_value(b) == decimal_value(a) * 10 + (s[k] as int - '0' as int));
        assert(decimal_value(a) * 10 >= decimal_value(a)) by (nonlinear_arith)
            requires decimal_value(a) >= 0;
    } else {
        assert(s.subrange(0, k) =~= s);
    }
}

// ========================================================================== //
//                    Errors
// ========================================================================== //

/// What went wrong while parsing.
#[derive(Debug, Clone)]
pub enum ParseErrorKind {
    InvalidFloat,
    InvalidInteger,
    ExpectedExpression,
    ExpectedToken(&'static str),
    InvalidAssignmentTarget,
    VariableRedefine(String),
    TooMuchCodeToJumpOver(usize),
    TooMuchParameter,
    TooMuchArgument,
    TooMuchItems,
    ReturnInTop,
    BreakOutsideLoop,
    ContinueOutsideLoop,
    InvalidEscape(char),
    RequiredAfterOptional,
    PositionalAfterKeyword,
    DuplicateKeywordArg(String),
    InvalidDefaultValue,
    UndefinedVariable(String),
    /// An operand does not fit the bytecode: too many constants in one
    /// function, or a local, upvalue or count beyond what an instruction
    /// can encode.
    OperandTooLarge,
}

/// A parse error and the token it was found at.
#[derive(Debug, Clone)]
pub struct ParseError {
    pub line: usize,
    pub column: usize,
    pub lexeme: String,
    pub kind: ParseErrorKind,
}

// ========================================================================== //
//                    Compilation units
// ========================================================================== //

/// A local variable of the function being compiled.
#[derive(Debug, Clone)]
pub struct Local {
    name: String,
    /// Scope depth; `-1` while declared but not yet initialized.
    depth: isize,
    /// Captured by an inner function as an upvalue.
    is_captured: bool,
}

#[derive(Debug, Clone, Copy, PartialEq, Eq, Structural)]
enum FunctionKind {
    /// Slot 0 holds the closure being called.
    Function,
    /// Slot 0 holds the receiver, the first declared parameter.
    Method,
    /// The top-level script.
    Script,
    /// A module: top-level definitions are locals, and the function returns
    /// a dictionary of them.
    Module,
}

/// A function being compiled.
struct CompilationUnit {
    name: String,
    arity: usize,
    required_arity: usize,
    param_names: Vec<String>,
    defaults: Vec<ObjectHandle>,
    chunk: Chunk,
    kind: FunctionKind,
    locals: Vec<Local>,
    scope_depth: isize,
    upvalues: Vec<UpvalueDesc>,
    /// The instructions written into `chunk`, each with the index its
    /// constants start at.
    program: Ghost<Seq<(Instruction, int)>>,
}

impl CompilationUnit {
    fn new(name: String, kind: FunctionKind) -> (u: Self)
        ensures
            u.chunk.constants@.len() == 0,
            u.chunk.codes@.len() == 0,
            u.scope_depth == if kind == FunctionKind::Module { 1int } else { 0int },
            u.kind == kind,
            u.name@ == name@,
            u.arity == 0,
            u.required_arity == 0,
            u.upvalues@.len() == 0,
            u.program@.len() == 0,
            u.param_names@.len() == 0,
            u.defaults@.len() == 0,
            kind != FunctionKind::Method ==> u.locals@.len() == 1 && u.locals@[0].depth == 0,
            laid_out(u.program@, u.chunk.codes@, 0),
            forall|objs: Seq<Option<Object>>| #[trigger] names_hold(u.program@, u.chunk.constants@, objs),
    {
        let mut locals: Vec<Local> = Vec::new();
        if kind != FunctionKind::Method {
            locals.push(Local { name: String::new(), depth: 0, is_captured: false });
        }
        let scope_depth: isize = if kind == FunctionKind::Module { 1 } else { 0 };
        let chunk = Chunk::new();
        proof {
            lemma_laid_out_empty();
            assert(chunk.codes@ =~= Seq::<u8>::empty());
        }
        CompilationUnit {
            name,
            arity: 0,
            required_arity: 0,
            param_names: Vec::new(),
            defaults: Vec::new(),
            chunk,
            kind,
            locals,
            scope_depth,
            upvalues: Vec::new(),
            program: Ghost(Seq::empty()),
        }
    }
}

/// Where `break` and `continue` of the innermost loop go.
struct LoopContext {
    /// Code position `continue` jumps back to.
    continue_target: usize,
    /// Positions of the operands of the jumps emitted for `break`.
    break_patches: Vec<usize>,
}

/// How a name resolves.
enum LocalAccess {
    Local(usize),
    Upvalue(usize),
}

// ========================================================================== //
//                    Parser
// ========================================================================== //

/// A single-pass compiler from tokens to bytecode.
pub struct Parser {
    tokens: Vec<Token>,
    current: usize,
    errors: Vec<ParseError>,
    /// The functions being compiled, innermost last.
    units: Vec<CompilationUnit>,
    /// The loops enclosing the current position in the innermost function.
    loop_stack: Vec<LoopContext>,
    /// Globals declared at the top level.
    declared_globals: Vec<String>,
}

/// Can `inst` be written into a chunk holding `constants_len` constants?
fn fits(inst: &Instruction, constants_len: usize) -> (b: bool)
    ensures
        b == (encodable(model(*inst)) && constants_len + const_count(model(*inst)) <= 65536),
{
    match inst {
        Instruction::GetLocal(n) | Instruction::SetLocal(n) | Instruction::JumpIfFalse(n) | Instruction::Jump(n)
        | Instruction::Loop(n) | Instruction::BuildList(n) | Instruction::BuildDict(n) | Instruction::BuildSet(n)
        | Instruction::ForInNext(n) => *n < 65536 && constants_len <= 65536,
        Instruction::Call(n) | Instruction::GetUpvalue(n) | Instruction::SetUpvalue(n) => *n < 256 && constants_len <= 65536,
        Instruction::Constant(_) | Instruction::DefineGlobal(_) | Instruction::GetGlobal(_) | Instruction::SetGlobal(_)
        | Instruction::Class(_) | Instruction::SetProperty(_) | Instruction::GetProperty(_) | Instruction::Method(_)
        | Instruction::Import(_) => constants_len < 65536,
        Instruction::Invoke(_, n) | Instruction::SuperInvoke(_, n) => *n < 256 && constants_len < 65536,
        Instruction::Closure { function: _, upvalues } => {
            if upvalues.len() >= 256 || constants_len >= 65536 {
                return false;
            }
            let mut k: usize = 0;
            while k < upvalues.len()
                invariant
                    k <= upvalues@.len(),
                    model(*inst).upvalues == upvalues@,
                    forall|j: int| 0 <= j < k ==> #[trigger] upvalues@[j].index < 256,
                decreases upvalues@.len() - k,
            {
                if upvalues[k].index >= 256 {
                    proof {
                        assert(model(*inst).upvalues[k as int] == upvalues@[k as int]);
                    }
                    return false;
                }
                k = k + 1;
            }
            true
        },
        Instruction::CallKw { pos_count, kw_count, kw_names } => {
            proof {
                assert(crate::chunk::names_view(kw_names@).len() == kw_names@.len());
            }
            *pos_count < 256 && *kw_count < 256 && kw_names.len() == *kw_count && constants_len <= 65536 - *kw_count
        },
        _ => constants_len <= 65536,
    }
}

/// What the parser's invariant asks of each function being compiled: a
/// constant pool and scope depth in range, and code that is its program's
/// instructions one after the other.
spec fn unit_ok(u: CompilationUnit, current: usize) -> bool {
    &&& u.chunk.constants@.len() <= 65536
    &&& 0 <= u.scope_depth <= current + 1
    &&& laid_out(u.program@, u.chunk.codes@, u.chunk.constants@.len() as int)
}

/// Function `u` after `m` of the parameters `names` were declared, with
/// nothing compiled yet.
spec fn params_state(u: CompilationUnit, names: Seq<Seq<char>>, m: int, name: Seq<char>) -> bool {
    &&& u.kind == FunctionKind::Function
    &&& u.name@ == name
    &&& u.scope_depth == 1
    &&& u.arity == m
    &&& u.required_arity == m
    &&& u.defaults@.len() == 0
    &&& u.param_names@.len() == m
    &&& forall|q: int| 0 <= q < m ==> (#[trigger] u.param_names@[q])@ == names[q]
    &&& u.locals@.len() == m + 1
    &&& u.locals@[0].depth == 0
    &&& forall|q: int| 1 <= q <= m ==> (#[trigger] u.locals@[q]).depth == 1 && u.locals@[q].name@ == names[q - 1]
    &&& u.program@.len() == 0
    &&& u.chunk.constants@.len() == 0
    &&& u.upvalues@.len() == 0
}

/// A name other than the parameters declared so far is not declared in the
/// parameters' scope.
proof fn lemma_param_not_declared(locals: Seq<Local>, names: Seq<Seq<char>>, i: int, name: Seq<char>)
    requires
        1 <= i <= locals.len(),
        locals[0].depth == 0,
        forall|q: int| 1 <= q < locals.len() ==> (#[trigger] locals[q]).depth == 1 && locals[q].name@ == names[q - 1],
        forall|q: int| 0 <= q < locals.len() - 1 ==> names[q] != name,
    ensures
        !declared_in_scope(locals, 1, name, i),
    decreases i,
{
    if i > 1 {
        assert(locals[i - 1].name@ == names[i - 2]);
        lemma_param_not_declared(locals, names, i - 1, name);
    }
}

/// The program of function `u` with the end its epilogue writes, for a
/// function that is not a module: `self` for an initializer, `nil`
/// otherwise, then `Return`.
spec fn with_epilogue(u: CompilationUnit) -> Seq<(Instruction, int)> {
    let n = u.chunk.constants@.len() as int;
    if u.name@ == "__init__"@ {
        u.program@.push((Instruction::GetLocal(0), n)).push((Instruction::Return, n))
    } else {
        u.program@.push((Instruction::Nil, n)).push((Instruction::Return, n))
    }
}

/// `b` is `a` with possibly another chunk.
spec fn same_but_chunk(a: CompilationUnit, b: CompilationUnit) -> bool {
    &&& b.name == a.name
    &&& b.arity == a.arity
    &&& b.required_arity == a.required_arity
    &&& b.param_names == a.param_names
    &&& b.defaults == a.defaults
    &&& b.kind == a.kind
    &&& b.locals == a.locals
    &&& b.scope_depth == a.scope_depth
    &&& b.upvalues == a.upvalues
}

/// `b` is `a` with possibly other locals.
spec fn same_but_locals(a: CompilationUnit, b: CompilationUnit) -> bool {
    &&& b.name == a.name
    &&& b.arity == a.arity
    &&& b.required_arity == a.required_arity
    &&& b.param_names == a.param_names
    &&& b.defaults == a.defaults
    &&& b.chunk == a.chunk
    &&& b.kind == a.kind
    &&& b.scope_depth == a.scope_depth
    &&& b.upvalues == a.upvalues
    &&& b.program == a.program
}

/// `b` is `a` with possibly another scope depth.
spec fn same_but_depth(a: CompilationUnit, b: CompilationUnit) -> bool {
    &&& b.name == a.name
    &&& b.arity == a.arity
    &&& b.required_arity == a.required_arity
    &&& b.param_names == a.param_names
    &&& b.defaults == a.defaults
    &&& b.chunk == a.chunk
    &&& b.kind == a.kind
    &&& b.locals == a.locals
    &&& b.upvalues == a.upvalues
    &&& b.program == a.program
}

/// The instruction a literal token compiles to.
pub open spec fn literal_op(k: TokenKind) -> Option<Instruction> {
    match k {
        TokenKind::True => Some(Instruction::True),
        TokenKind::False => Some(Instruction::False),
        TokenKind::Nil => Some(Instruction::Nil),
        _ => None,
    }
}

/// The instruction a prefix operator compiles to.
pub open spec fn unary_op(k: TokenKind) -> Option<Instruction> {
    match k {
        TokenKind::Minus => Some(Instruction::Negate),
        TokenKind::Bang => Some(Instruction::Not),
        _ => None,
    }
}

/// The instruction a binary operator compiles to.
pub open spec fn binary_op(k: TokenKind) -> Option<Instruction> {
    match k {
        TokenKind::Plus => Some(Instruction::Add),
        TokenKind::Minus => Some(Instruction::Sub),
        TokenKind::Star => Some(Instruction::Mul),
        TokenKind::Slash => Some(Instruction::Div),
        TokenKind::Percent => Some(Instruction::Mod),
        TokenKind::TildeSlash => Some(Instruction::FloorDiv),
        TokenKind::EqualEqual => Some(Instruction::Equal),
        TokenKind::BangEqual => Some(Instruction::NotEqual),
        TokenKind::Less => Some(Instruction::Less),
        TokenKind::Greater => Some(Instruction::Greater),
        TokenKind::LessEqual => Some(Instruction::LessEqual),
        TokenKind::GreaterEqual => Some(Instruction::GreaterEqual),
        _ => None,
    }
}

/// `o` is the number object that the text `text`, classified as `lit`,
/// denotes.
spec fn number_object(o: Option<Object>, lit: NumberLiteral, text: Seq<char>) -> bool {
    match lit {
        NumberLiteral::Int(v) => int_of(o) == Some(v),
        NumberLiteral::Float => o matches Some(Object::Instance(inst))
            && inst.data matches InstanceData::Float(f) && f.literal@ == text,
        _ => false,
    }
}

/// Where the value of a parameter default starting at token `c` stands:
/// after its minus sign, if it has one.
spec fn default_at(tokens: Seq<Token>, c: int) -> int {
    if tokens[c].kind == TokenKind::Minus { c + 1 } else { c }
}

/// Do the tokens at `c` make a valid parameter default?
spec fn default_ok(tokens: Seq<Token>, c: int) -> bool {
    let t = tokens[default_at(tokens, c)];
    let num = number_literal(t.lexeme@);
    match t.kind {
        TokenKind::Number => num is Int || num is Float,
        TokenKind::String => tokens[c].kind != TokenKind::Minus && unescape(unquoted(t.lexeme@)) is Ok,
        TokenKind::True | TokenKind::False | TokenKind::Nil => tokens[c].kind != TokenKind::Minus,
        _ => false,
    }
}

/// `h` is the object that the valid parameter default at `c` denotes.
spec fn default_object(heap: &ObjectHeap, h: ObjectHandle, tokens: Seq<Token>, c: int) -> bool {
    let neg = tokens[c].kind == TokenKind::Minus;
    let t = tokens[default_at(tokens, c)];
    match t.kind {
        TokenKind::Number => match number_literal(t.lexeme@) {
            NumberLiteral::Int(v) => int_of(heap.objs()[h.0 as int]) == Some((if neg { -v } else { v as int }) as i64),
            _ => number_object(heap.objs()[h.0 as int], NumberLiteral::Float,
                if neg { seq!['-'] + t.lexeme@ } else { t.lexeme@ }),
        },
        TokenKind::String => str_of(heap.objs()[h.0 as int]) == Some(unescape(unquoted(t.lexeme@))->Ok_0),
        TokenKind::True => bool_of(heap.objs()[h.0 as int]) == Some(true),
        TokenKind::False => bool_of(heap.objs()[h.0 as int]) == Some(false),
        _ => h.0 == 0,
    }
}

/// The last instruction of `prog` accesses the variable `name` the way it
/// resolves in `p`: as a local, an upvalue or a global.
spec fn accesses(p: &Parser, prog: Seq<(Instruction, int)>, name: Seq<char>) -> bool {
    &&& prog.len() > 0
    &&& match local_slot(p.cur().locals@, name) {
        Some(k) => prog.last().0 == Instruction::GetLocal(k as usize) || prog.last().0 == Instruction::SetLocal(k as usize),
        None => if upvalue_found(p.units@, p.units@.len() - 1, name) {
            prog.last().0 is GetUpvalue || prog.last().0 is SetUpvalue
        } else {
            prog.last().0 is GetGlobal || prog.last().0 is SetGlobal
        },
    }
}

// ========================================================================== //
//                    Operator expressions over integers
// ========================================================================== //

/// What an operator expression over integer literals compiles to, item by
/// item: a literal becomes a constant holding it, an operator its
/// instruction, and the definition of a global the instruction that
/// defines that name.
pub enum ArithItem {
    Number(i64),
    Op(Instruction),
    Global(Ghost<Seq<char>>),
}

/// Can an expression parsed at `prec` be an assignment target?
pub open spec fn can_assign_at(prec: Prec) -> bool {
    prec.rank() <= Prec::Assignment.rank()
}

/// The operand that starts at token `i`, when it is an integer literal, a
/// `-` or `!` before an operand, or a parenthesized expression of that kind:
/// its code and the index of the token after it.
pub open spec fn arith_prefix(ts: Seq<TokenView>, i: int) -> Option<(Seq<ArithItem>, int)>
    decreases ts.len() - i, 0int,
{
    if i < 0 || i >= ts.len() {
        None
    } else {
        let t = ts[i];
        if t.kind == TokenKind::Number {
            match number_literal(t.lexeme) {
                NumberLiteral::Int(v) => Some((seq![ArithItem::Number(v)], i + 1)),
                _ => None,
            }
        } else if t.kind == TokenKind::Minus || t.kind == TokenKind::Bang {
            match arith_prec(ts, i + 1, Prec::Unary) {
                Some((c, j)) => Some((c.push(ArithItem::Op(unary_op(t.kind)->0)), j)),
                None => None,
            }
        } else if t.kind == TokenKind::LeftParen {
            match arith_prec(ts, i + 1, Prec::Assignment) {
                Some((c, j)) => if 0 <= j < ts.len() && ts[j].kind == TokenKind::RightParen {
                    Some((c, j + 1))
                } else {
                    None
                },
                None => None,
            }
        } else {
            None
        }
    }
}

/// The operator expression at precedence `prec` that starts at token `i`:
/// an operand, then binary operators binding at least as tightly as `prec`
/// with their right operands.  `None` where the tokens are not such an
/// expression.
pub open spec fn arith_prec(ts: Seq<TokenView>, i: int, prec: Prec) -> Option<(Seq<ArithItem>, int)>
    decreases ts.len() - i, 1int,
{
    match arith_prefix(ts, i) {
        Some((c, j)) => if i < j <= ts.len() { arith_infix(ts, j, prec, c) } else { None },
        None => None,
    }
}

/// Continue an expression at precedence `prec` whose code so far is `c`,
/// from token `j`.
pub open spec fn arith_infix(ts: Seq<TokenView>, j: int, prec: Prec, c: Seq<ArithItem>) -> Option<(Seq<ArithItem>, int)>
    decreases ts.len() - j, 2int,
{
    if j < 0 || j >= ts.len() {
        None
    } else {
        let k = ts[j].kind;
        let r = rule_of(k);
        if prec.rank() <= r.precedence.rank() && r.infix is Some {
            if r.infix == Some(InfixRule::Binary) && binary_op(k) is Some {
                match arith_prec(ts, j + 1, r.precedence.tighter()) {
                    Some((c2, j2)) => if j < j2 <= ts.len() {
                        arith_infix(ts, j2, prec, c + c2.push(ArithItem::Op(binary_op(k)->0)))
                    } else {
                        None
                    },
                    None => None,
                }
            } else {
                None
            }
        } else if can_assign_at(prec) && k == TokenKind::Equal {
            None
        } else {
            Some((c, j))
        }
    }
}

/// A variable declaration after `var`, from token `i` on: the name, then
/// `;`, or `=`, an expression over integers and `;`.  Its code pushes the
/// expression's value, or `nil`, and defines a global of that name; and
/// the index after the `;`.
pub open spec fn var_decl(ts: Seq<TokenView>, i: int) -> Option<(Seq<ArithItem>, int)> {
    if 0 <= i && i + 1 < ts.len() && ts[i].kind == TokenKind::Identifier {
        let def = ArithItem::Global(Ghost::new(ts[i].lexeme));
        if ts[i + 1].kind == TokenKind::Semicolon {
            Some((seq![ArithItem::Op(Instruction::Nil), def], i + 2))
        } else if ts[i + 1].kind == TokenKind::Equal {
            match arith_prec(ts, i + 2, Prec::Assignment) {
                Some((c, j)) => if i + 2 < j < ts.len() && ts[j].kind == TokenKind::Semicolon {
                    Some((c.push(def), j + 1))
                } else {
                    None
                },
                None => None,
            }
        } else {
            None
        }
    } else {
        None
    }
}

/// A program from token `i` on of expression statements over integers and
/// global variable declarations initialized by such expressions: the code
/// of each statement's expression and a `Pop` after it, the code of each
/// declaration.  `None` where the tokens are not such a program.
pub open spec fn arith_program(ts: Seq<TokenView>, i: int) -> Option<Seq<ArithItem>>
    decreases ts.len() - i,
{
    if i < 0 || i >= ts.len() {
        None
    } else if ts[i].kind == TokenKind::Eof {
        Some(Seq::empty())
    } else if ts[i].kind == TokenKind::Var {
        match var_decl(ts, i + 1) {
            Some((c, j)) => if i < j {
                match arith_program(ts, j) {
                    Some(rest) => Some(c + rest),
                    None => None,
                }
            } else {
                None
            },
            None => None,
        }
    } else {
        match arith_prec(ts, i, Prec::Assignment) {
            Some((c, j)) => if i < j < ts.len() && ts[j].kind == TokenKind::Semicolon {
                match arith_program(ts, j + 1) {
                    Some(rest) => Some(c.push(ArithItem::Op(Instruction::Pop)) + rest),
                    None => None,
                }
            } else {
                None
            },
            None => None,
        }
    }
}

/// `h` is a function object whose code is `prog`'s instructions, one
/// after the other, each of which decodes back.
pub open spec fn compiled_program(objs: Seq<Option<Object>>, h: ObjectHandle, prog: Seq<(Instruction, int)>) -> bool {
    &&& h.0 < objs.len()
    &&& objs[h.0 as int] matches Some(Object::Function(f))
    &&& laid_out(prog, f.chunk.codes@, f.chunk.constants@.len() as int)
    &&& decodes_as(f.chunk, objs, prog)
}

/// The constants of function object `h`'s code, laid out as `prog`, are
/// the ones its instructions need, and its pool is in range.
pub open spec fn fun_names_hold(objs: Seq<Option<Object>>, h: ObjectHandle, prog: Seq<(Instruction, int)>) -> bool {
    &&& h.0 < objs.len()
    &&& objs[h.0 as int] matches Some(Object::Function(f))
    &&& names_hold(prog, f.chunk.constants@, objs)
    &&& f.chunk.constants@.len() <= 65536
}

/// A compiled function object stays so in a heap that only grows.
proof fn lemma_compiled_program_grow(h: ObjectHandle, prog: Seq<(Instruction, int)>, h1: &ObjectHeap, h2: &ObjectHeap)
    requires
        compiled_program(h1.objs(), h, prog),
        fun_names_hold(h1.objs(), h, prog),
        ObjectHeap::only_adds(h1, h2),
    ensures
        compiled_program(h2.objs(), h, prog),
        fun_names_hold(h2.objs(), h, prog),
{
    if let Some(Object::Function(f)) = h1.objs()[h.0 as int] {
        let chunk = f.chunk;
        assert(h2.objs()[h.0 as int] == h1.objs()[h.0 as int]);
        lemma_laid_out_bounds(prog, chunk.codes@, chunk.constants@.len() as int);
        assert(chunk.constants@.subrange(0, chunk.constants@.len() as int) =~= chunk.constants@);
        lemma_names_hold_grow(prog, chunk.constants@, chunk.constants@, h1, h2);
        lemma_decode_program(chunk, h2.objs(), prog);
    }
}

/// A block of expression statements over integers from token `i` on, up
/// to and including its closing `}`: the code of each statement's
/// expression and a `Pop` after it, and the index after the `}`.
pub open spec fn arith_block(ts: Seq<TokenView>, i: int) -> Option<(Seq<ArithItem>, int)>
    decreases ts.len() - i,
{
    if i < 0 || i >= ts.len() || ts[i].kind == TokenKind::Eof {
        None
    } else if ts[i].kind == TokenKind::RightBrace {
        Some((Seq::empty(), i + 1))
    } else {
        match arith_prec(ts, i, Prec::Assignment) {
            Some((c, j)) => if i < j < ts.len() && ts[j].kind == TokenKind::Semicolon {
                match arith_block(ts, j + 1) {
                    Some((rest, e)) => Some((c.push(ArithItem::Op(Instruction::Pop)) + rest, e)),
                    None => None,
                }
            } else {
                None
            },
            None => None,
        }
    }
}

/// `h` is a function object whose code is the instructions of `code`, one
/// after the other, each of which decodes back.
pub open spec fn compiled_code(objs: Seq<Option<Object>>, h: ObjectHandle, code: Seq<ArithItem>) -> bool {
    &&& h.0 < objs.len()
    &&& objs[h.0 as int] matches Some(Object::Function(f))
    &&& exists|prog: Seq<(Instruction, int)>| {
        &&& laid_out(prog, f.chunk.codes@, f.chunk.constants@.len() as int)
        &&& decodes_as(f.chunk, objs, prog)
        &&& #[trigger] emits(Seq::empty(), prog, code, objs)
    }
}

/// A parameter list without defaults from token `i` on: names separated
/// by commas up to the closing `)`; the names and the index of the `)`.
pub open spec fn plain_params(ts: Seq<TokenView>, i: int) -> Option<(Seq<Seq<char>>, int)> {
    if 0 <= i < ts.len() && ts[i].kind == TokenKind::RightParen {
        Some((Seq::empty(), i))
    } else {
        param_names_from(ts, i)
    }
}

/// At least one parameter name from token `i` on, then the closing `)`.
pub open spec fn param_names_from(ts: Seq<TokenView>, i: int) -> Option<(Seq<Seq<char>>, int)>
    decreases ts.len() - i,
{
    if i < 0 || i + 1 >= ts.len() || ts[i].kind != TokenKind::Identifier {
        None
    } else if ts[i + 1].kind == TokenKind::RightParen {
        Some((seq![ts[i].lexeme], i + 1))
    } else if ts[i + 1].kind == TokenKind::Comma {
        match param_names_from(ts, i + 2) {
            Some((ns, k)) => Some((seq![ts[i].lexeme] + ns, k)),
            None => None,
        }
    } else {
        None
    }
}

/// A function after its name, from token `i` on: `(`, parameters without
/// defaults, `)`, and a body of expression statements over integers in
/// braces.  The parameter names, the body's code and the index after the
/// body.
pub open spec fn plain_function(ts: Seq<TokenView>, i: int) -> Option<(Seq<Seq<char>>, Seq<ArithItem>, int)> {
    if 0 <= i < ts.len() && ts[i].kind == TokenKind::LeftParen {
        match plain_params(ts, i + 1) {
            Some((names, k)) => if k + 1 < ts.len() && ts[k + 1].kind == TokenKind::LeftBrace {
                match arith_block(ts, k + 2) {
                    Some((body, e)) => Some((names, body, e)),
                    None => None,
                }
            } else {
                None
            },
            None => None,
        }
    } else {
        None
    }
}

/// A parameter list ends at a `)`.
proof fn lemma_param_names_end(ts: Seq<TokenView>, i: int)
    ensures
        param_names_from(ts, i) matches Some((_, k)) ==> 0 <= k < ts.len() && ts[k].kind == TokenKind::RightParen,
    decreases ts.len() - i,
{
    if 0 <= i && i + 1 < ts.len() && ts[i].kind == TokenKind::Identifier && ts[i + 1].kind == TokenKind::Comma {
        lemma_param_names_end(ts, i + 2);
    }
}

/// No two of `names` are the same.
pub open spec fn distinct_names(names: Seq<Seq<char>>) -> bool {
    forall|a: int, b: int| 0 <= a < b < names.len() ==> names[a] != names[b]
}

/// The code a function named `name` ends with: `self` for an
/// initializer, `nil` otherwise, then `Return`.
pub open spec fn epilogue_items(name: Seq<char>) -> Seq<ArithItem> {
    if name == "__init__"@ {
        seq![ArithItem::Op(Instruction::GetLocal(0)), ArithItem::Op(Instruction::Return)]
    } else {
        seq![ArithItem::Op(Instruction::Nil), ArithItem::Op(Instruction::Return)]
    }
}

/// `h` is a function object named `name` with `arity` parameters whose code
/// is `body` followed by its epilogue.
pub open spec fn compiled_fun(objs: Seq<Option<Object>>, h: ObjectHandle, name: Seq<char>, arity: nat, body: Seq<ArithItem>) -> bool {
    &&& h.0 < objs.len()
    &&& objs[h.0 as int] matches Some(Object::Function(f))
    &&& f.name@ == name
    &&& f.arity == arity
    &&& exists|prog: Seq<(Instruction, int)>| {
        &&& compiled_program(objs, h, prog)
        &&& fun_names_hold(objs, h, prog)
        &&& #[trigger] emits(Seq::empty(), prog, body + epilogue_items(name), objs)
    }
}

/// A compiled function stays so in a heap that only grows.
proof fn lemma_compiled_fun_grow(h: ObjectHandle, name: Seq<char>, arity: nat, body: Seq<ArithItem>, h1: &ObjectHeap,
    h2: &ObjectHeap)
    requires
        compiled_fun(h1.objs(), h, name, arity, body),
        ObjectHeap::only_adds(h1, h2),
    ensures
        compiled_fun(h2.objs(), h, name, arity, body),
{
    let code = body + epilogue_items(name);
    let prog = choose|prog: Seq<(Instruction, int)>| {
        &&& compiled_program(h1.objs(), h, prog)
        &&& fun_names_hold(h1.objs(), h, prog)
        &&& #[trigger] emits(Seq::empty(), prog, code, h1.objs())
    };
    lemma_compiled_program_grow(h, prog, h1, h2);
    assert(emits(prog, prog, Seq::<ArithItem>::empty(), h2.objs()));
    lemma_emits_trans(Seq::empty(), prog, prog, code, Seq::<ArithItem>::empty(), h1, h2);
    assert(code + Seq::<ArithItem>::empty() =~= code);
    assert(h2.objs()[h.0 as int] == h1.objs()[h.0 as int]);
}

/// The offset a forward jump adds to the position after it.
pub open spec fn jump_offset(inst: Instruction) -> int {
    match inst {
        Instruction::Jump(o) => o as int,
        Instruction::JumpIfFalse(o) => o as int,
        _ => 0,
    }
}

/// Instruction `k` of `prog` is a forward jump that, taken, goes on at the
/// start of instruction `m`.
pub open spec fn lands_at(prog: Seq<(Instruction, int)>, k: int, m: int) -> bool {
    &&& is_forward_jump(prog[k].0)
    &&& start_of(prog, k + 1) + jump_offset(prog[k].0) == start_of(prog, m)
}

/// `inst` is the instruction the code item `item` stands for.
pub open spec fn item_is(inst: Instruction, item: ArithItem, objs: Seq<Option<Object>>) -> bool {
    match item {
        ArithItem::Number(v) => inst matches Instruction::Constant(h) && h.0 < objs.len()
            && int_of(objs[h.0 as int]) == Some(v),
        ArithItem::Op(op) => inst == op,
        ArithItem::Global(name) => inst matches Instruction::DefineGlobal(n) && n@ == name@,
    }
}

/// Appending the definition of a global appends its item.
proof fn lemma_emits_push_global(a: Seq<(Instruction, int)>, b: Seq<(Instruction, int)>, code: Seq<ArithItem>,
    objs: Seq<Option<Object>>, name: String, n: int)
    requires
        emits(a, b, code, objs),
    ensures
        emits(a, b.push((Instruction::DefineGlobal(name), n)), code.push(ArithItem::Global(Ghost::new(name@))), objs),
{
    let d = b.push((Instruction::DefineGlobal(name), n));
    let c = code.push(ArithItem::Global(Ghost::new(name@)));
    assert forall|k: int| 0 <= k < c.len() implies item_is(#[trigger] d[a.len() + k].0, c[k], objs) by {
        if k < code.len() {
            assert(d[a.len() + k] == b[a.len() + k]);
        }
    }
}

/// `new_prog` is `old_prog` followed by the instructions of `code`.
pub open spec fn emits(old_prog: Seq<(Instruction, int)>, new_prog: Seq<(Instruction, int)>, code: Seq<ArithItem>,
    objs: Seq<Option<Object>>) -> bool {
    &&& new_prog.len() == old_prog.len() + code.len()
    &&& forall|k: int| 0 <= k < old_prog.len() ==> #[trigger] new_prog[k] == old_prog[k]
    &&& forall|k: int| 0 <= k < code.len() ==> item_is(#[trigger] new_prog[old_prog.len() + k].0, code[k], objs)
}

/// Appending an operator's instruction appends its item.
proof fn lemma_emits_push(a: Seq<(Instruction, int)>, b: Seq<(Instruction, int)>, code: Seq<ArithItem>,
    objs: Seq<Option<Object>>, op: Instruction, n: int)
    requires
        emits(a, b, code, objs),
    ensures
        emits(a, b.push((op, n)), code.push(ArithItem::Op(op)), objs),
{
    let d = b.push((op, n));
    let c = code.push(ArithItem::Op(op));
    assert forall|k: int| 0 <= k < c.len() implies item_is(#[trigger] d[a.len() + k].0, c[k], objs) by {
        if k < code.len() {
            assert(d[a.len() + k] == b[a.len() + k]);
        }
    }
}

/// The code an expression continued from `c` ends with has `c` in front.
proof fn lemma_arith_infix_grows(ts: Seq<TokenView>, j: int, prec: Prec, c: Seq<ArithItem>)
    ensures
        arith_infix(ts, j, prec, c) matches Some((d, _)) ==> c.len() <= d.len(),
    decreases ts.len() - j,
{
    if 0 <= j < ts.len() {
        let k = ts[j].kind;
        let r = rule_of(k);
        if prec.rank() <= r.precedence.rank() && r.infix is Some && r.infix == Some(InfixRule::Binary)
            && binary_op(k) is Some {
            if let Some((c2, j2)) = arith_prec(ts, j + 1, r.precedence.tighter()) {
                if j < j2 <= ts.len() {
                    lemma_arith_infix_grows(ts, j2, prec, c + c2.push(ArithItem::Op(binary_op(k)->0)));
                }
            }
        }
    }
}

/// Emitting one more part keeps what was emitted, in a heap that only grew.
proof fn lemma_emits_trans(
    a: Seq<(Instruction, int)>,
    b: Seq<(Instruction, int)>,
    d: Seq<(Instruction, int)>,
    c1: Seq<ArithItem>,
    c2: Seq<ArithItem>,
    h1: &ObjectHeap,
    h2: &ObjectHeap,
)
    requires
        emits(a, b, c1, h1.objs()),
        emits(b, d, c2, h2.objs()),
        ObjectHeap::only_adds(h1, h2),
    ensures
        emits(a, d, c1 + c2, h2.objs()),
{
    let c = c1 + c2;
    assert forall|k: int| 0 <= k < c.len() implies item_is(#[trigger] d[a.len() + k].0, c[k], h2.objs()) by {
        if k < c1.len() {
            assert(d[a.len() + k] == b[a.len() + k]);
            assert(item_is(b[a.len() + k].0, c1[k], h1.objs()));
            if let ArithItem::Number(v) = c1[k] {
                if let Instruction::Constant(h) = b[a.len() + k].0 {
                    assert(h1.objs()[h.0 as int] is Some);
                    assert(h2.objs()[h.0 as int] == h1.objs()[h.0 as int]);
                }
            }
        } else {
            assert(a.len() + k == b.len() + (k - c1.len()));
            assert(item_is(d[b.len() + (k - c1.len())].0, c2[k - c1.len()], h2.objs()));
        }
    }
}

/// `codes` with the jump whose operand is at `addr` pointed to the end of
/// the code: the distance after the operand, least significant byte first.
spec fn jump_patched(codes: Seq<u8>, addr: int) -> Seq<u8> {
    let off = codes.len() - addr - 2;
    codes.update(addr, (off % 256) as u8).update(addr + 1, ((off / 256) % 256) as u8)
}

/// Is the end of `codes` too far from the jump operand at `addr`?
spec fn too_far(codes: Seq<u8>, addr: int) -> bool {
    codes.len() - addr - 2 > 65535
}

/// `codes` with each of `patches` patched in turn.
spec fn all_patched(codes: Seq<u8>, patches: Seq<usize>) -> Seq<u8>
    decreases patches.len(),
{
    if patches.len() == 0 {
        codes
    } else {
        jump_patched(all_patched(codes, patches.drop_last()), patches.last() as int)
    }
}

/// How many of `patches` are too far from the end of code `len` long.
spec fn far_count(len: int, patches: Seq<usize>) -> nat
    decreases patches.len(),
{
    if patches.len() == 0 {
        0
    } else {
        far_count(len, patches.drop_last()) + if len - patches.last() - 2 > 65535 { 1nat } else { 0nat }
    }
}

/// The operand of the backward jump from the end of code `len` long to
/// `loop_start`, past the jump itself; past any operand where it cannot be
/// computed.
spec fn loop_offset(len: int, loop_start: int) -> int {
    if loop_start <= len && len - loop_start <= usize::MAX - 3 {
        len - loop_start + 3
    } else {
        usize::MAX as int
    }
}

/// How many of the first `i` locals, after slot 0, have a name.
spec fn named_count(locals: Seq<Local>, i: int) -> nat
    decreases i,
{
    if i <= 1 {
        0
    } else {
        named_count(locals, i - 1) + if locals[i - 1].name@.len() > 0 { 1nat } else { 0nat }
    }
}

/// The slot of the innermost of the first `i` locals named `name`.
spec fn innermost_named(locals: Seq<Local>, name: Seq<char>, i: int) -> Option<int>
    decreases i,
{
    if i <= 0 {
        None
    } else if locals[i - 1].name@ == name {
        Some(i - 1)
    } else {
        innermost_named(locals, name, i - 1)
    }
}

/// The slot `name` resolves to among `locals`: the innermost local of that
/// name, unless it is not initialized yet.
spec fn local_slot(locals: Seq<Local>, name: Seq<char>) -> Option<int> {
    match innermost_named(locals, name, locals.len() as int) {
        Some(k) => if locals[k].depth == -1 { None } else { Some(k) },
        None => None,
    }
}

/// Is the innermost local named `name` still uninitialized?
spec fn named_uninitialized(locals: Seq<Local>, name: Seq<char>) -> bool {
    match innermost_named(locals, name, locals.len() as int) {
        Some(k) => locals[k].depth == -1,
        None => false,
    }
}

/// Is `name` declared among the first `i` locals, within the innermost
/// scope, which is at `depth`?
spec fn declared_in_scope(locals: Seq<Local>, depth: isize, name: Seq<char>, i: int) -> bool
    decreases i,
{
    if i <= 0 {
        false
    } else if locals[i - 1].depth != -1 && locals[i - 1].depth < depth {
        false
    } else if locals[i - 1].name@ == name {
        true
    } else {
        declared_in_scope(locals, depth, name, i - 1)
    }
}

/// `new_locals` is `old_locals` and one more local named `name`, declared
/// but not yet initialized.
spec fn local_added(old_locals: Seq<Local>, new_locals: Seq<Local>, name: Seq<char>) -> bool {
    &&& new_locals.len() == old_locals.len() + 1
    &&& new_locals.drop_last() == old_locals
    &&& new_locals.last().name@ == name
    &&& new_locals.last().depth == -1
    &&& !new_locals.last().is_captured
}

/// `locals` with the last one marked initialized at `depth`, when there is
/// a scope and a local.
spec fn last_initialized(locals: Seq<Local>, depth: isize) -> Seq<Local> {
    if depth == 0 || locals.len() == 0 {
        locals
    } else {
        let l = locals.last();
        locals.update(locals.len() - 1, Local { name: l.name, depth, is_captured: l.is_captured })
    }
}

/// Can `name` be found as a local of a function enclosing function `unit`?
spec fn upvalue_found(units: Seq<CompilationUnit>, unit: int, name: Seq<char>) -> bool
    decreases unit,
{
    if unit <= 0 {
        false
    } else {
        local_slot(units[unit - 1].locals@, name) is Some || upvalue_found(units, unit - 1, name)
    }
}

impl Parser {
    /// The parser's invariant: the token list ends with the end-of-file
    /// token, the position is inside it, there is a function being
    /// compiled, and every function's constant pool and scope depth are in
    /// range.
    pub closed spec fn inv(&self) -> bool {
        &&& 1 <= self.tokens@.len() <= isize::MAX
        &&& self.tokens@.last().kind == TokenKind::Eof
        &&& self.current < self.tokens@.len()
        &&& self.units@.len() >= 1
        &&& forall|i: int| 0 <= i < self.units@.len() ==> unit_ok(#[trigger] self.units@[i], self.current)
    }

    /// The constants of every instruction written so far are the ones it
    /// needs, in the heap whose objects are `objs`.
    pub closed spec fn names_ok(&self, objs: Seq<Option<Object>>) -> bool {
        forall|i: int| 0 <= i < self.units@.len() ==> names_hold(
            (#[trigger] self.units@[i]).program@,
            self.units@[i].chunk.constants@,
            objs,
        )
    }

    /// Every pending `break` of the innermost loop is a forward jump of the
    /// current function.
    spec fn breaks_ok(&self) -> bool {
        self.loop_stack@.len() > 0 ==> forall|j: int| 0 <= j < self.loop_stack@.last().break_patches@.len()
            ==> jump_site(self.cur().program@, #[trigger] self.loop_stack@.last().break_patches@[j] as int)
    }

    /// `new_p` is `old_p` with `inst` appended to the program of the current
    /// function, or, where its operands do not fit the bytecode, with an
    /// error recorded instead.
    spec fn emitted(old_p: &Parser, new_p: &Parser, inst: Instruction) -> bool {
        let n = old_p.cur().chunk.constants@.len();
        if encodable(model(inst)) && n + const_count(model(inst)) <= 65536 {
            &&& new_p.cur().program@ == old_p.cur().program@.push((inst, n as int))
            &&& new_p.errors@.len() == old_p.errors@.len()
        } else {
            &&& new_p.cur().program@ == old_p.cur().program@
            &&& new_p.errors@.len() == old_p.errors@.len() + 1
        }
    }

    /// Going from `old_p` to `new_p` compiled `code`: the position is now
    /// `j`, no error was recorded, the current function's program got the
    /// instructions of `code`, and its pool at most one constant per item.
    spec fn compiled_to(old_p: &Parser, new_p: &Parser, objs: Seq<Option<Object>>, code: Seq<ArithItem>, j: int) -> bool {
        &&& new_p.current == j
        &&& new_p.errors@.len() == old_p.errors@.len()
        &&& new_p.units@.len() == old_p.units@.len()
        &&& new_p.cur().name == old_p.cur().name
        &&& new_p.cur().kind == old_p.cur().kind
        &&& new_p.cur().upvalues == old_p.cur().upvalues
        &&& new_p.cur().arity == old_p.cur().arity
        &&& emits(old_p.cur().program@, new_p.cur().program@, code, objs)
        &&& new_p.cur().chunk.constants@.len() <= old_p.cur().chunk.constants@.len() + code.len()
    }

    /// Going from `old_p` to `new_p` appended to the current function's
    /// program a closure, without upvalues, of a function named `name` with
    /// `arity` parameters whose code is `body` and its epilogue.
    spec fn fun_emitted(old_p: &Parser, new_p: &Parser, objs: Seq<Option<Object>>, name: Seq<char>, arity: nat,
        body: Seq<ArithItem>) -> bool {
        &&& new_p.cur().program@.len() == old_p.cur().program@.len() + 1
        &&& forall|q: int| 0 <= q < old_p.cur().program@.len() ==> #[trigger] new_p.cur().program@[q] == old_p.cur().program@[q]
        &&& new_p.cur().program@.last().0 matches Instruction::Closure { function: f, upvalues }
            && upvalues@.len() == 0 && compiled_fun(objs, f, name, arity, body)
    }

    /// Going from `old_p` to `new_p` appended to the current function's
    /// program a closure, without upvalues, of a function named `name` with
    /// `arity` parameters whose code is `body` and its epilogue, then the
    /// definition of a global of that name.
    spec fn fun_declared(old_p: &Parser, new_p: &Parser, objs: Seq<Option<Object>>, name: Seq<char>, arity: nat,
        body: Seq<ArithItem>) -> bool {
        let n = old_p.cur().program@.len() as int;
        &&& new_p.cur().program@.len() == n + 2
        &&& forall|q: int| 0 <= q < n ==> #[trigger] new_p.cur().program@[q] == old_p.cur().program@[q]
        &&& new_p.cur().program@[n].0 matches Instruction::Closure { function: f, upvalues }
            && upvalues@.len() == 0 && compiled_fun(objs, f, name, arity, body)
        &&& new_p.cur().program@[n + 1].0 matches Instruction::DefineGlobal(g) && g@ == name
    }

    /// Going from `old_p` to `new_p` filled in the offset of the forward
    /// jump whose operand is at `addr` so that it lands at the end of the
    /// code.
    #[verifier::opaque]
    spec fn patched_at(old_p: &Parser, new_p: &Parser, addr: int) -> bool {
        forall|k: int| 0 <= k < old_p.cur().program@.len() && #[trigger] start_of(old_p.cur().program@, k) + 1 == addr
            ==> new_p.cur().program@ == patched(old_p.cur().program@, k, (old_p.cur().chunk.codes@.len() - addr - 2) as usize)
    }

    /// Where the current function's code laid out as its program ends.
    proof fn lemma_cur_layout(&self)
        requires
            self.inv(),
        ensures
            laid_out(self.cur().program@, self.cur().chunk.codes@, self.cur().chunk.constants@.len() as int),
            start_of(self.cur().program@, self.cur().program@.len() as int) == self.cur().chunk.codes@.len(),
    {
        assert(unit_ok(self.units@[self.units@.len() - 1], self.current));
        lemma_end_start(self.cur().program@, self.cur().chunk.codes@, self.cur().chunk.constants@.len() as int);
    }

    /// The pool of the current function has room for `n` more constants.
    spec fn room_for(&self, n: int) -> bool {
        self.cur().chunk.constants@.len() + n <= 65536
    }

    /// Whatever heap the constants of `old_p` were right in, those of
    /// `new_p` are right in it too.
    spec fn keeps_names(old_p: &Parser, new_p: &Parser) -> bool {
        forall|objs: Seq<Option<Object>>| old_p.names_ok(objs) ==> #[trigger] new_p.names_ok(objs)
    }

    /// `new_p` has the same functions as `old_p`, with the same code.
    spec fn same_code(old_p: &Parser, new_p: &Parser) -> bool {
        &&& new_p.units@.len() == old_p.units@.len()
        &&& forall|i: int| 0 <= i < old_p.units@.len() ==>
            (#[trigger] new_p.units@[i]).chunk == old_p.units@[i].chunk && new_p.units@[i].program == old_p.units@[i].program
    }

    /// The models of the tokens being parsed.
    pub closed spec fn token_views(&self) -> Seq<TokenView> {
        tokens_view(self.tokens@)
    }

    /// A parser at the start of its tokens, compiling a top-level script
    /// with nothing written yet and no error.
    pub closed spec fn fresh_script(&self) -> bool {
        &&& self.current == 0
        &&& self.errors@.len() == 0
        &&& self.units@.len() == 1
        &&& self.cur().kind == FunctionKind::Script
        &&& self.cur().name@ == Seq::<char>::empty()
        &&& self.cur().scope_depth == 0
        &&& self.loop_stack@.len() == 0
        &&& self.cur().program@.len() == 0
        &&& self.cur().chunk.constants@.len() == 0
    }

    /// The errors recorded so far.
    pub closed spec fn error_count(&self) -> nat {
        self.errors@.len()
    }

    /// The function being compiled.
    spec fn cur(&self) -> CompilationUnit {
        self.units@.last()
    }

    /// Is the next token the end-of-file token?
    spec fn at_eof(&self) -> bool {
        self.tokens@[self.current as int].kind == TokenKind::Eof
    }

    /// `new_p` only moved forward over the same tokens, added errors and
    /// functions, and left the code of the functions enclosing the current
    /// one as it was.
    spec fn steps(old_p: &Parser, new_p: &Parser) -> bool {
        &&& new_p.tokens@ == old_p.tokens@
        &&& old_p.current <= new_p.current
        &&& old_p.errors@.len() <= new_p.errors@.len()
        &&& old_p.units@.len() <= new_p.units@.len()
        &&& forall|i: int| 0 <= i < old_p.units@.len() - 1 ==> {
            &&& (#[trigger] new_p.units@[i]).scope_depth == old_p.units@[i].scope_depth
            &&& new_p.units@[i].chunk == old_p.units@[i].chunk
            &&& new_p.units@[i].program == old_p.units@[i].program
        }
    }

    /// On success a construct leaves the same functions open, the current
    /// one at the same scope depth with every forward jump of its program
    /// still there, and the loops around it as they were, their pending
    /// breaks still jumps of the current function.
    spec fn balanced(old_p: &Parser, new_p: &Parser) -> bool {
        &&& new_p.units@.len() == old_p.units@.len()
        &&& new_p.cur().scope_depth == old_p.cur().scope_depth
        &&& keeps_sites(old_p.cur().program@, new_p.cur().program@)
        &&& new_p.loop_stack@.len() == old_p.loop_stack@.len()
        &&& forall|i: int| 0 <= i < old_p.loop_stack@.len() - 1 ==> #[trigger] new_p.loop_stack@[i] == old_p.loop_stack@[i]
        &&& old_p.breaks_ok() ==> new_p.breaks_ok()
    }

    /// A parser over `tokens` compiling a top-level script.
    pub fn new(tokens: Vec<Token>) -> (p: Self)
        requires
            1 <= tokens@.len() <= isize::MAX,
            tokens@.last().kind == TokenKind::Eof,
        ensures
            p.inv(),
            p.error_count() == 0,
            p.fresh_script(),
            p.token_views() == tokens_view(tokens@),
            forall|objs: Seq<Option<Object>>| #[trigger] p.names_ok(objs),
    {
        let mut units: Vec<CompilationUnit> = Vec::new();
        units.push(CompilationUnit::new(String::new(), FunctionKind::Script));
        Parser { tokens, current: 0, errors: Vec::new(), units, loop_stack: Vec::new(), declared_globals: Vec::new() }
    }

    /// A parser over `tokens` compiling a module, whose top-level
    /// definitions become the entries of the dictionary it returns.
    pub fn new_module(tokens: Vec<Token>) -> (p: Self)
        requires
            1 <= tokens@.len() <= isize::MAX,
            tokens@.last().kind == TokenKind::Eof,
        ensures
            p.inv(),
            p.error_count() == 0,
            forall|objs: Seq<Option<Object>>| #[trigger] p.names_ok(objs),
    {
        let mut units: Vec<CompilationUnit> = Vec::new();
        let name = string_from_chars(vec!['_', '_', 'm', 'o', 'd', 'u', 'l', 'e', '_', '_']);
        units.push(CompilationUnit::new(name, FunctionKind::Module));
        Parser { tokens, current: 0, errors: Vec::new(), units, loop_stack: Vec::new(), declared_globals: Vec::new() }
    }

    // ------------------------------------------------------------------------
    //  Tokens
    // ------------------------------------------------------------------------

    fn peek(&self) -> (t: &Token)
        requires
            self.inv(),
        ensures
            *t == self.tokens@[self.current as int],
    {
        &self.tokens[self.current]
    }

    fn peek_next(&self) -> (t: &Token)
        requires
            self.inv(),
        ensures
            *t == if self.current + 1 < self.tokens@.len() {
                self.tokens@[self.current + 1]
            } else {
                self.tokens@[self.current as int]
            },
    {
        if self.current < self.tokens.len() - 1 {
            &self.tokens[self.current + 1]
        } else {
            &self.tokens[self.current]
        }
    }

    fn previous(&self) -> (t: &Token)
        requires
            self.inv(),
            self.current > 0,
        ensures
            *t == self.tokens@[self.current - 1],
    {
        &self.tokens[self.current - 1]
    }

    fn at_end(&self) -> (b: bool)
        requires
            self.inv(),
        ensures
            b == self.at_eof(),
    {
        self.peek().kind == TokenKind::Eof
    }

    fn check(&self, kind: TokenKind) -> (b: bool)
        requires
            self.inv(),
        ensures
            b == (self.tokens@[self.current as int].kind == kind),
    {
        self.peek().kind == kind
    }

    fn advance(&mut self)
        requires
            old(self).inv(),
        ensures
            final(self).inv(),
            final(self).current == if old(self).at_eof() { old(self).current as int } else { old(self).current + 1 },
            final(self).tokens == old(self).tokens,
            final(self).errors == old(self).errors,
            final(self).units == old(self).units,
            final(self).loop_stack == old(self).loop_stack,
            final(self).declared_globals == old(self).declared_globals,
    {
        if !self.at_end() {
            proof {
                assert(self.tokens@.last() == self.tokens@[self.tokens@.len() - 1]);
                assert(self.current != self.tokens@.len() - 1);
                assert(self.tokens.len() == self.tokens@.len());
            }
            self.current = self.current + 1;
            proof {
                assert forall|i: int| 0 <= i < self.units@.len() implies unit_ok(#[trigger] self.units@[i], self.current) by {
                    assert(old(self).units@[i] == self.units@[i]);
                }
            }
        }
    }

    fn match_token(&mut self, kind: TokenKind) -> (b: bool)
        requires
            old(self).inv(),
        ensures
            final(self).inv(),
            b == (old(self).tokens@[old(self).current as int].kind == kind),
            b && kind != TokenKind::Eof ==> final(self).current == old(self).current + 1,
            !b ==> final(self).current == old(self).current,
            b && kind == TokenKind::Eof ==> final(self).current == old(self).current,
            final(self).tokens == old(self).tokens,
            final(self).errors == old(self).errors,
            final(self).units == old(self).units,
            final(self).loop_stack == old(self).loop_stack,
            final(self).declared_globals == old(self).declared_globals,
    {
        if self.check(kind) {
            self.advance();
            true
        } else {
            false
        }
    }

    fn error_at_current(&self, kind: ParseErrorKind) -> (e: ParseError)
        requires
            self.inv(),
        ensures
            e.line == self.tokens@[self.current as int].line,
            e.column == self.tokens@[self.current as int].column,
            e.kind == kind,
    {
        let t = self.peek();
        ParseError { line: t.line, column: t.column, lexeme: t.lexeme.clone(), kind }
    }

    fn error_at_previous(&self, kind: ParseErrorKind) -> (e: ParseError)
        requires
            self.inv(),
            self.current > 0,
        ensures
            e.line == self.tokens@[self.current - 1].line,
            e.column == self.tokens@[self.current - 1].column,
            e.kind == kind,
    {
        let t = self.previous();
        ParseError { line: t.line, column: t.column, lexeme: t.lexeme.clone(), kind }
    }

    /// Record an error at the current token and go on.
    fn record_error_at_current(&mut self, kind: ParseErrorKind)
        requires
            old(self).inv(),
        ensures
            final(self).inv(),
            final(self).errors@.len() == old(self).errors@.len() + 1,
            final(self).current == old(self).current,
            final(self).tokens == old(self).tokens,
            final(self).units == old(self).units,
            final(self).loop_stack == old(self).loop_stack,
            final(self).declared_globals == old(self).declared_globals,
    {
        let e = self.error_at_current(kind);
        self.errors.push(e);
    }

    /// Record an error at the previous token and go on.
    fn record_error_at_previous(&mut self, kind: ParseErrorKind)
        requires
            old(self).inv(),
            old(self).current > 0,
        ensures
            final(self).inv(),
            final(self).errors@.len() == old(self).errors@.len() + 1,
            final(self).current == old(self).current,
            final(self).tokens == old(self).tokens,
            final(self).units == old(self).units,
            final(self).loop_stack == old(self).loop_stack,
            final(self).declared_globals == old(self).declared_globals,
    {
        let e = self.error_at_previous(kind);
        self.errors.push(e);
    }

    /// Consume the expected token, or fail at the current one.
    fn consume(&mut self, kind: TokenKind, msg: &'static str) -> (r: Result<(), ParseError>)
        requires
            old(self).inv(),
            kind != TokenKind::Eof,
        ensures
            final(self).inv(),
            r is Ok <==> old(self).tokens@[old(self).current as int].kind == kind,
            r is Ok ==> final(self).current == old(self).current + 1,
            r is Err ==> final(self).current == old(self).current,
            final(self).tokens == old(self).tokens,
            final(self).errors == old(self).errors,
            final(self).units == old(self).units,
            final(self).loop_stack == old(self).loop_stack,
            final(self).declared_globals == old(self).declared_globals,
    {
        if self.check(kind) {
            self.advance();
            Ok(())
        } else {
            Err(self.error_at_current(ParseErrorKind::ExpectedToken(msg)))
        }
    }

    // ------------------------------------------------------------------------
    //  Emitting code
    // ------------------------------------------------------------------------

    /// Append `inst` to the current function's chunk.  An instruction whose
    /// operands do not fit the bytecode is not written; an error is
    /// recorded instead.
    fn emit(&mut self, inst: Instruction, heap: &mut ObjectHeap)
        requires
            old(self).inv(),
            old(heap).wf(),
            old(self).names_ok(old(heap).objs()),
        ensures
            final(self).inv(),
            final(heap).wf(),
            final(self).names_ok(final(heap).objs()),
            ObjectHeap::only_adds(old(heap), final(heap)),
            final(self).tokens == old(self).tokens,
            final(self).current == old(self).current,
            final(self).loop_stack == old(self).loop_stack,
            final(self).declared_globals == old(self).declared_globals,
            final(self).units@.len() == old(self).units@.len(),
            forall|i: int| 0 <= i < old(self).units@.len() - 1 ==> #[trigger] final(self).units@[i] == old(self).units@[i],
            same_but_chunk(old(self).cur(), final(self).cur()),
            Parser::steps(old(self), final(self)),
            Parser::balanced(old(self), final(self)),
            Parser::emitted(old(self), final(self), inst),
            if encodable(model(inst)) && old(self).cur().chunk.constants@.len() + const_count(model(inst)) <= 65536 {
                &&& Chunk::appended(old(self).cur().chunk, final(self).cur().chunk, model(inst),
                        final(self).cur().chunk.lines@.last(), final(self).cur().chunk.columns@.last())
                &&& final(self).cur().program@
                    == old(self).cur().program@.push((inst, old(self).cur().chunk.constants@.len() as int))
                &&& final(self).errors == old(self).errors
            } else {
                &&& final(self).cur().chunk == old(self).cur().chunk
                &&& final(self).errors@.len() == old(self).errors@.len() + 1
                &&& *final(heap) == *old(heap)
            },
    {
        let (line, column) = if self.current > 0 {
            let t = self.previous();
            (t.line, t.column)
        } else {
            (1usize, 1usize)
        };
        let last = self.units.len() - 1;
        if fits(&inst, self.units[last].chunk.constants.len()) {
            let ghost m = model(inst);
            let ghost g = inst;
            let ghost h0 = *heap;
            let ghost before = *self;
            let ghost n = self.units@[last as int].chunk.constants@.len() as int;
            self.units[last].chunk.write_instruction(inst, line, column, heap);
            let ghost prog = self.units@[last as int].program@;
            self.units[last].program = Ghost(prog.push((g, n)));
            proof {
                assert(encode_len_pos(m));
                let c = self.units@[last as int].chunk;
                let u0 = before.units@[last as int];
                assert(c.lines@.last() == line);
                assert(c.columns@.last() == column);
                assert(unit_ok(u0, before.current));
                lemma_laid_out_push(prog, u0.chunk.codes@, n, g);
                lemma_laid_out_bounds(prog, u0.chunk.codes@, n);
                lemma_names_ok_heap(&before, &h0, heap);
                lemma_names_hold_grow(prog, u0.chunk.constants@, c.constants@, &h0, heap);
                assert(Chunk::pushed(u0.chunk, c) =~= c.constants@.subrange(n, n + const_count(m)));
                lemma_names_hold_push(prog, c.constants@, heap.objs(), g, n);
                assert forall|i: int| 0 <= i < self.units@.len() implies names_hold(
                    (#[trigger] self.units@[i]).program@,
                    self.units@[i].chunk.constants@,
                    heap.objs(),
                ) by {
                    if i != last {
                        assert(self.units@[i] == before.units@[i]);
                    }
                }
                assert forall|i: int| 0 <= i < self.units@.len() implies unit_ok(#[trigger] self.units@[i], self.current) by {
                    if i != last {
                        assert(self.units@[i] == old(self).units@[i]);
                    }
                }
            }
        } else {
            self.record_error_at_current(ParseErrorKind::OperandTooLarge);
        }
    }
}

/// What the constants of a parser's functions hold stays so when the heap
/// only grows.
proof fn lemma_names_ok_heap(p: &Parser, h1: &ObjectHeap, h2: &ObjectHeap)
    requires
        p.inv(),
        p.names_ok(h1.objs()),
        ObjectHeap::only_adds(h1, h2),
    ensures
        p.names_ok(h2.objs()),
{
    assert forall|i: int| 0 <= i < p.units@.len() implies names_hold(
        (#[trigger] p.units@[i]).program@,
        p.units@[i].chunk.constants@,
        h2.objs(),
    ) by {
        let u = p.units@[i];
        assert(unit_ok(u, p.current));
        lemma_laid_out_bounds(u.program@, u.chunk.codes@, u.chunk.constants@.len() as int);
        assert(u.chunk.constants@.subrange(0, u.chunk.constants@.len() as int) =~= u.chunk.constants@);
        lemma_names_hold_grow(u.program@, u.chunk.constants@, u.chunk.constants@, h1, h2);
    }
}

/// Every instruction takes at least one byte.
spec fn encode_len_pos(m: crate::chunk::InstrModel) -> bool {
    crate::chunk::encode(m, 0).len() >= 1
}

/// The characters of `a`, then `b`, then `c`.
fn concat3(a: &str, b: &String, c: &str) -> (r: String)
    ensures
        r@ == a@ + b@ + c@,
{
    let mut v = chars_of(a);
    let bs = chars_of(b.as_str());
    let cs = chars_of(c);
    let mut i: usize = 0;
    while i < bs.len()
        invariant
            i <= bs@.len(),
            v@ == a@ + bs@.subrange(0, i as int),
        decreases bs@.len() - i,
    {
        v.push(bs[i]);
        i = i + 1;
        proof {
            assert(v@ =~= a@ + bs@.subrange(0, i as int));
        }
    }
    let mut j: usize = 0;
    while j < cs.len()
        invariant
            j <= cs@.len(),
            v@ == a@ + bs@ + cs@.subrange(0, j as int),
            bs@ == b@,
        decreases cs@.len() - j,
    {
        v.push(cs[j]);
        j = j + 1;
        proof {
            assert(v@ =~= a@ + bs@ + cs@.subrange(0, j as int));
        }
    }
    proof {
        assert(bs@.subrange(0, bs@.len() as int) =~= bs@);
        assert(cs@.subrange(0, cs@.len() as int) =~= cs@);
    }
    string_from_chars(v)
}

/// Does `s` hold the characters of `lit`?
fn is_named(s: &String, lit: &str) -> (b: bool)
    ensures
        b == (s@ == lit@),
{
    *s == lit.to_owned()
}

impl Parser {
    // ------------------------------------------------------------------------
    //  Scopes and variables
    // ------------------------------------------------------------------------

    fn begin_scope(&mut self)
        requires
            old(self).inv(),
            old(self).cur().scope_depth <= old(self).current,
        ensures
            Parser::same_code(old(self), final(self)),
            final(self).inv(),
            final(self).cur().scope_depth == old(self).cur().scope_depth + 1,
            final(self).units@.len() == old(self).units@.len(),
            same_but_depth(old(self).cur(), final(self).cur()),
            forall|i: int| 0 <= i < old(self).units@.len() - 1 ==> #[trigger] final(self).units@[i] == old(self).units@[i],
            final(self).tokens == old(self).tokens,
            final(self).current == old(self).current,
            final(self).errors == old(self).errors,
            final(self).loop_stack == old(self).loop_stack,
            final(self).declared_globals == old(self).declared_globals,
    {
        let last = self.units.len() - 1;
        self.units[last].scope_depth = self.units[last].scope_depth + 1;
        proof {
            assert forall|i: int| 0 <= i < self.units@.len() implies unit_ok(#[trigger] self.units@[i], self.current) by {
                if i != last {
                    assert(self.units@[i] == old(self).units@[i]);
                }
            }
        }
    }

    fn end_scope(&mut self, heap: &mut ObjectHeap)
        requires
            old(self).inv(),
            old(heap).wf(),
            old(self).names_ok(old(heap).objs()),
            old(self).cur().scope_depth >= 1,
        ensures
            final(self).inv(),
            final(heap).wf(),
            final(self).names_ok(final(heap).objs()),
            ObjectHeap::only_adds(old(heap), final(heap)),
            final(self).cur().scope_depth == old(self).cur().scope_depth - 1,
            final(self).units@.len() == old(self).units@.len(),
            keeps_sites(old(self).cur().program@, final(self).cur().program@),
            Parser::steps(old(self), final(self)),
            final(self).current == old(self).current,
            final(self).loop_stack == old(self).loop_stack,
            final(self).declared_globals == old(self).declared_globals,
    {
        let last = self.units.len() - 1;
        self.units[last].scope_depth = self.units[last].scope_depth - 1;
        proof {
            assert forall|i: int| 0 <= i < self.units@.len() implies unit_ok(#[trigger] self.units@[i], self.current) by {
                if i != last {
                    assert(self.units@[i] == old(self).units@[i]);
                }
            }
        }
        let depth = self.units[last].scope_depth;
        let ghost mid = *self;
        while self.units[last].locals.len() > 0
            && self.units[last].locals[self.units[last].locals.len() - 1].depth > depth
            invariant
                self.inv(),
                heap.wf(),
                self.names_ok(heap.objs()),
                ObjectHeap::only_adds(old(heap), heap),
                last == self.units@.len() - 1,
                self.units@.len() == old(self).units@.len(),
                self.cur().scope_depth == depth,
                depth == old(self).cur().scope_depth - 1,
                keeps_sites(old(self).cur().program@, self.cur().program@),
                Parser::steps(old(self), self),
                self.current == old(self).current,
                self.loop_stack == old(self).loop_stack,
                self.declared_globals == old(self).declared_globals,
            decreases self.units@[last as int].locals@.len(),
        {
            let n = self.units[last].locals.len();
            let captured = self.units[last].locals[n - 1].is_captured;
            if captured {
                self.emit(Instruction::CloseUpvalue, heap);
            } else {
                self.emit(Instruction::Pop, heap);
            }
            let ghost before = *self;
            let _ = self.units[last].locals.pop();
            proof {
                assert forall|i: int| 0 <= i < self.units@.len() implies unit_ok(#[trigger] self.units@[i], self.current) by {
                    if i != last {
                        assert(self.units@[i] == before.units@[i]);
                    }
                }
            }
        }
    }

    fn add_local(&mut self, name: String)
        requires
            old(self).inv(),
        ensures
            Parser::same_code(old(self), final(self)),
            final(self).inv(),
            final(self).units@.len() == old(self).units@.len(),
            final(self).cur().scope_depth == old(self).cur().scope_depth,
            final(self).cur().locals@.len() == old(self).cur().locals@.len() + 1,
            local_added(old(self).cur().locals@, final(self).cur().locals@, name@),
            same_but_locals(old(self).cur(), final(self).cur()),
            forall|i: int| 0 <= i < old(self).units@.len() - 1 ==> #[trigger] final(self).units@[i] == old(self).units@[i],
            final(self).tokens == old(self).tokens,
            final(self).current == old(self).current,
            final(self).errors == old(self).errors,
            final(self).loop_stack == old(self).loop_stack,
            final(self).declared_globals == old(self).declared_globals,
    {
        let last = self.units.len() - 1;
        self.units[last].locals.push(Local { name, depth: -1, is_captured: false });
        proof {
            assert(self.cur().locals@.drop_last() =~= old(self).cur().locals@);
            assert forall|i: int| 0 <= i < self.units@.len() implies unit_ok(#[trigger] self.units@[i], self.current) by {
                if i != last {
                    assert(self.units@[i] == old(self).units@[i]);
                }
            }
        }
    }

    /// Mark the most recently declared local as ready for use.
    fn mark_local_initialized(&mut self)
        requires
            old(self).inv(),
        ensures
            Parser::same_code(old(self), final(self)),
            final(self).inv(),
            final(self).units@.len() == old(self).units@.len(),
            final(self).cur().scope_depth == old(self).cur().scope_depth,
            final(self).cur().locals@ == last_initialized(old(self).cur().locals@, old(self).cur().scope_depth),
            same_but_locals(old(self).cur(), final(self).cur()),
            forall|i: int| 0 <= i < old(self).units@.len() - 1 ==> #[trigger] final(self).units@[i] == old(self).units@[i],
            final(self).tokens == old(self).tokens,
            final(self).current == old(self).current,
            final(self).errors == old(self).errors,
            final(self).loop_stack == old(self).loop_stack,
            final(self).declared_globals == old(self).declared_globals,
    {
        let last = self.units.len() - 1;
        let depth = self.units[last].scope_depth;
        if depth == 0 {
            return;
        }
        let n = self.units[last].locals.len();
        if n > 0 {
            self.units[last].locals[n - 1].depth = depth;
            proof {
                assert forall|i: int| 0 <= i < self.units@.len() implies unit_ok(#[trigger] self.units@[i], self.current) by {
                    if i != last {
                        assert(self.units@[i] == old(self).units@[i]);
                    }
                }
            }
        }
    }

    /// Declare `name` as a local of the current scope (nothing at the top
    /// level).  A name declared twice in one scope is an error.
    fn add_variable_to_scope(&mut self, name: String) -> (r: Result<(), ParseError>)
        requires
            old(self).inv(),
            old(self).current > 0,
        ensures
            Parser::same_code(old(self), final(self)),
            final(self).inv(),
            final(self).units@.len() == old(self).units@.len(),
            final(self).cur().scope_depth == old(self).cur().scope_depth,
            r is Err <==> old(self).cur().scope_depth > 0 && declared_in_scope(
                old(self).cur().locals@, old(self).cur().scope_depth, name@, old(self).cur().locals@.len() as int),
            r matches Err(e) ==> e.kind matches ParseErrorKind::VariableRedefine(n) && n@ == name@,
            r is Err || old(self).cur().scope_depth == 0 ==> final(self).cur().locals@ == old(self).cur().locals@,
            r is Ok && old(self).cur().scope_depth > 0 ==> local_added(old(self).cur().locals@, final(self).cur().locals@, name@),
            same_but_locals(old(self).cur(), final(self).cur()),
            forall|i: int| 0 <= i < old(self).units@.len() - 1 ==> #[trigger] final(self).units@[i] == old(self).units@[i],
            final(self).tokens == old(self).tokens,
            final(self).current == old(self).current,
            final(self).errors == old(self).errors,
            final(self).loop_stack == old(self).loop_stack,
            final(self).declared_globals == old(self).declared_globals,
    {
        let last = self.units.len() - 1;
        let depth = self.units[last].scope_depth;
        if depth == 0 {
            return Ok(());
        }
        let ghost locals = self.cur().locals@;
        proof {
            assert(unit_ok(self.units@[last as int], self.current));
        }
        let mut i = self.units[last].locals.len();
        while i > 0
            invariant
                i <= self.units@[last as int].locals@.len(),
                last == self.units@.len() - 1,
                *self == *old(self),
                self.inv(),
                self.current > 0,
                depth == self.cur().scope_depth,
                depth > 0,
                locals == self.units@[last as int].locals@,
                declared_in_scope(locals, depth, name@, locals.len() as int)
                    == declared_in_scope(locals, depth, name@, i as int),
            ensures
                !declared_in_scope(locals, depth, name@, locals.len() as int),
            decreases i,
        {
            let local = &self.units[last].locals[i - 1];
            if local.depth != -1 && local.depth < depth {
                proof {
                    assert(locals[i - 1] == *local);
                    assert(!declared_in_scope(locals, depth, name@, i as int));
                }
                break;
            }
            if name == local.name {
                proof {
                    assert(locals[i - 1] == *local);
                    assert(declared_in_scope(locals, depth, name@, i as int));
                    assert(declared_in_scope(locals, depth, name@, locals.len() as int));
                    assert(locals == old(self).cur().locals@);
                    assert(old(self).cur().scope_depth > 0);
                }
                return Err(self.error_at_previous(ParseErrorKind::VariableRedefine(name)));
            }
            i = i - 1;
        }
        self.add_local(name);
        Ok(())
    }

    /// Insert a declared global name (once).
    fn declare_global(&mut self, name: &String)
        ensures
            final(self).tokens == old(self).tokens,
            final(self).current == old(self).current,
            final(self).errors == old(self).errors,
            final(self).units == old(self).units,
            final(self).loop_stack == old(self).loop_stack,
            final(self).declared_globals@.contains(*name) || exists|j: int|
                0 <= j < final(self).declared_globals@.len() && final(self).declared_globals@[j]@ == name@,
    {
        if !self.is_declared_global(name) {
            self.declared_globals.push(name.clone());
            proof {
                let n = self.declared_globals@.len();
                assert(self.declared_globals@[n - 1]@ == name@);
            }
        }
    }

    fn is_declared_global(&self, name: &String) -> (b: bool)
        ensures
            b == exists|j: int| 0 <= j < self.declared_globals@.len() && self.declared_globals@[j]@ == name@,
    {
        let mut j: usize = 0;
        while j < self.declared_globals.len()
            invariant
                j <= self.declared_globals@.len(),
                forall|k: int| 0 <= k < j ==> self.declared_globals@[k]@ != name@,
            decreases self.declared_globals@.len() - j,
        {
            if self.declared_globals[j] == *name {
                return true;
            }
            j = j + 1;
        }
        false
    }
}

impl Parser {
    // ------------------------------------------------------------------------
    //  Resolving names
    // ------------------------------------------------------------------------

    /// The slot of the innermost local of `unit` named `name`, unless it is
    /// not initialized yet.
    fn resolve_local_in_unit(&self, unit: usize, name: &String) -> (r: Option<usize>)
        requires
            unit < self.units@.len(),
        ensures
            r matches Some(i) ==> i < self.units@[unit as int].locals@.len(),
            r is Some <==> local_slot(self.units@[unit as int].locals@, name@) is Some,
            r matches Some(i) ==> local_slot(self.units@[unit as int].locals@, name@) == Some(i as int),
    {
        let ghost locals = self.units@[unit as int].locals@;
        let mut i = self.units[unit].locals.len();
        while i > 0
            invariant
                i <= self.units@[unit as int].locals@.len(),
                unit < self.units@.len(),
                locals == self.units@[unit as int].locals@,
                innermost_named(locals, name@, locals.len() as int) == innermost_named(locals, name@, i as int),
            decreases i,
        {
            let local = &self.units[unit].locals[i - 1];
            if *name == local.name {
                if local.depth == -1 {
                    return None;
                }
                return Some(i - 1);
            }
            i = i - 1;
        }
        None
    }

    /// The slot of the innermost local of the current function named
    /// `name`.  Reading a local in its own initializer is an error.
    fn resolve_local_in_current(&mut self, name: &String) -> (r: Option<usize>)
        requires
            old(self).inv(),
            old(self).current > 0,
        ensures
            final(self).inv(),
            final(self).units == old(self).units,
            final(self).tokens == old(self).tokens,
            final(self).current == old(self).current,
            Parser::steps(old(self), final(self)),
            final(self).loop_stack == old(self).loop_stack,
            final(self).declared_globals == old(self).declared_globals,
            r is Some <==> local_slot(old(self).cur().locals@, name@) is Some,
            r matches Some(i) ==> local_slot(old(self).cur().locals@, name@) == Some(i as int),
            final(self).errors@.len() == old(self).errors@.len()
                + if named_uninitialized(old(self).cur().locals@, name@) { 1int } else { 0int },
    {
        let last = self.units.len() - 1;
        let ghost locals = self.cur().locals@;
        let mut i = self.units[last].locals.len();
        while i > 0
            invariant
                i <= self.units@[last as int].locals@.len(),
                last == self.units@.len() - 1,
                *self == *old(self),
                self.inv(),
                self.current > 0,
                locals == self.units@[last as int].locals@,
                innermost_named(locals, name@, locals.len() as int) == innermost_named(locals, name@, i as int),
            decreases i,
        {
            let local = &self.units[last].locals[i - 1];
            if *name == local.name {
                if local.depth == -1 {
                    let msg = concat3("Cannot read local variable '", name, "' in its own initializer");
                    self.record_error_at_previous(ParseErrorKind::VariableRedefine(msg));
                    return None;
                }
                return Some(i - 1);
            }
            i = i - 1;
        }
        None
    }

    /// Add an upvalue to function `unit` (reusing an equal one) and return
    /// its index.
    fn add_upvalue(&mut self, unit: usize, index: usize, is_local: bool) -> (r: usize)
        requires
            old(self).inv(),
            unit < old(self).units@.len(),
        ensures
            final(self).inv(),
            r < final(self).units@[unit as int].upvalues@.len(),
            final(self).units@[unit as int].upvalues@[r as int] == (UpvalueDesc { index, is_local }),
            final(self).units@.len() == old(self).units@.len(),
            Parser::same_code(old(self), final(self)),
            forall|i: int| 0 <= i < final(self).units@.len() ==>
                (#[trigger] final(self).units@[i]).scope_depth == old(self).units@[i].scope_depth,
            final(self).tokens == old(self).tokens,
            final(self).current == old(self).current,
            final(self).errors == old(self).errors,
            final(self).loop_stack == old(self).loop_stack,
            final(self).declared_globals == old(self).declared_globals,
    {
        let n = self.units[unit].upvalues.len();
        let mut i: usize = 0;
        while i < n
            invariant
                i <= n,
                n == self.units@[unit as int].upvalues@.len(),
                unit < self.units@.len(),
                *self == *old(self),
                self.inv(),
            decreases n - i,
        {
            let uv = self.units[unit].upvalues[i];
            if uv.index == index && uv.is_local == is_local {
                return i;
            }
            i = i + 1;
        }
        self.units[unit].upvalues.push(UpvalueDesc { index, is_local });
        proof {
                assert forall|i: int| 0 <= i < self.units@.len() implies unit_ok(#[trigger] self.units@[i], self.current) by {
                    if i != unit {
                        assert(self.units@[i] == old(self).units@[i]);
                    }
                }
        }
        n
    }

    /// Resolve `name` as an upvalue of function `unit`, looking through the
    /// enclosing functions; the locals found are marked captured.
    fn resolve_upvalue(&mut self, unit: usize, name: &String) -> (r: Option<usize>)
        requires
            old(self).inv(),
            unit < old(self).units@.len(),
        ensures
            final(self).inv(),
            r matches Some(i) ==> i < final(self).units@[unit as int].upvalues@.len(),
            r is Some <==> upvalue_found(old(self).units@, unit as int, name@),
            r matches Some(i) ==> final(self).units@[unit as int].upvalues@[i as int].is_local
                == (local_slot(old(self).units@[unit - 1].locals@, name@) is Some),
            r matches Some(i) ==> (local_slot(old(self).units@[unit - 1].locals@, name@) is Some
                ==> final(self).units@[unit as int].upvalues@[i as int].index as int
                == local_slot(old(self).units@[unit - 1].locals@, name@)->0),
            final(self).units@.len() == old(self).units@.len(),
            Parser::same_code(old(self), final(self)),
            forall|i: int| 0 <= i < final(self).units@.len() ==>
                (#[trigger] final(self).units@[i]).scope_depth == old(self).units@[i].scope_depth,
            final(self).tokens == old(self).tokens,
            final(self).current == old(self).current,
            final(self).errors == old(self).errors,
            final(self).loop_stack == old(self).loop_stack,
            final(self).declared_globals == old(self).declared_globals,
        decreases unit,
    {
        if unit == 0 {
            return None;
        }
        let enclosing = unit - 1;
        match self.resolve_local_in_unit(enclosing, name) {
            Some(slot) => {
                self.units[enclosing].locals[slot].is_captured = true;
                proof {
                assert forall|i: int| 0 <= i < self.units@.len() implies unit_ok(#[trigger] self.units@[i], self.current) by {
                    if i != enclosing {
                        assert(self.units@[i] == old(self).units@[i]);
                    }
                }
                }
                let i = self.add_upvalue(unit, slot, true);
                return Some(i);
            },
            None => {},
        }
        match self.resolve_upvalue(enclosing, name) {
            Some(i) => {
                let j = self.add_upvalue(unit, i, false);
                Some(j)
            },
            None => None,
        }
    }

    /// Resolve `name` in the current function: as a local, then as an
    /// upvalue; `None` means a global.
    fn resolve_local_or_upvalue(&mut self, name: &String) -> (r: Option<LocalAccess>)
        requires
            old(self).inv(),
            old(self).current > 0,
        ensures
            final(self).inv(),
            final(self).units@.len() == old(self).units@.len(),
            final(self).cur().scope_depth == old(self).cur().scope_depth,
            Parser::same_code(old(self), final(self)),
            local_slot(old(self).cur().locals@, name@) matches Some(k)
                ==> r matches Some(LocalAccess::Local(s)) && s == k,
            local_slot(old(self).cur().locals@, name@) is None
                ==> (r is Some <==> upvalue_found(old(self).units@, old(self).units@.len() - 1, name@)),
            local_slot(old(self).cur().locals@, name@) is None && r is Some
                ==> r matches Some(LocalAccess::Upvalue(_)),
            final(self).errors@.len() == old(self).errors@.len()
                + if named_uninitialized(old(self).cur().locals@, name@) { 1int } else { 0int },
            final(self).tokens == old(self).tokens,
            final(self).current == old(self).current,
            Parser::steps(old(self), final(self)),
            final(self).loop_stack == old(self).loop_stack,
            final(self).declared_globals == old(self).declared_globals,
    {
        match self.resolve_local_in_current(name) {
            Some(slot) => {
                return Some(LocalAccess::Local(slot));
            },
            None => {},
        }
        let last = self.units.len() - 1;
        match self.resolve_upvalue(last, name) {
            Some(i) => Some(LocalAccess::Upvalue(i)),
            None => None,
        }
    }

    // ------------------------------------------------------------------------
    //  Jumps
    // ------------------------------------------------------------------------

    /// Emit a jump with a placeholder offset and return the position of
    /// its operand.
    fn emit_jump(&mut self, if_false: bool, heap: &mut ObjectHeap) -> (addr: usize)
        requires
            old(self).inv(),
            old(heap).wf(),
            old(self).names_ok(old(heap).objs()),
        ensures
            final(self).inv(),
            final(heap).wf(),
            final(self).names_ok(final(heap).objs()),
            ObjectHeap::only_adds(old(heap), final(heap)),
            Parser::steps(old(self), final(self)),
            Parser::balanced(old(self), final(self)),
            final(self).current == old(self).current,
            final(self).loop_stack == old(self).loop_stack,
            final(self).declared_globals == old(self).declared_globals,
            addr + 2 == final(self).cur().chunk.codes@.len(),
            jump_site(final(self).cur().program@, addr as int),
            addr == old(self).cur().chunk.codes@.len() + 1,
            final(self).errors == old(self).errors,
            final(self).cur().chunk.constants@.len() == old(self).cur().chunk.constants@.len(),
            final(self).cur().program@ == old(self).cur().program@.push((
                if if_false { Instruction::JumpIfFalse(0) } else { Instruction::Jump(0) },
                old(self).cur().chunk.constants@.len() as int)),
    {
        let ghost u0 = self.cur();
        proof {
            assert(unit_ok(u0, self.current));
        }
        let inst = if if_false { Instruction::JumpIfFalse(0) } else { Instruction::Jump(0) };
        let ghost g = inst;
        self.emit(inst, heap);
        proof {
            self.lemma_jump_emitted(u0, g);
        }
        let last = self.units.len() - 1;
        self.units[last].chunk.codes.len() - 2
    }

    /// Emit `ForInNext` with a placeholder offset and return the position
    /// of its operand.
    fn emit_for_in_next(&mut self, heap: &mut ObjectHeap) -> (addr: usize)
        requires
            old(self).inv(),
            old(heap).wf(),
            old(self).names_ok(old(heap).objs()),
        ensures
            final(self).inv(),
            final(heap).wf(),
            final(self).names_ok(final(heap).objs()),
            ObjectHeap::only_adds(old(heap), final(heap)),
            Parser::steps(old(self), final(self)),
            Parser::balanced(old(self), final(self)),
            final(self).current == old(self).current,
            final(self).loop_stack == old(self).loop_stack,
            final(self).declared_globals == old(self).declared_globals,
            addr + 2 == final(self).cur().chunk.codes@.len(),
            jump_site(final(self).cur().program@, addr as int),
    {
        let ghost u0 = self.cur();
        self.emit(Instruction::ForInNext(0), heap);
        proof {
            self.lemma_jump_emitted(u0, Instruction::ForInNext(0));
        }
        let last = self.units.len() - 1;
        self.units[last].chunk.codes.len() - 2
    }

    /// A chunk laid out as `prog` whose constants held in `h1` is well
    /// compiled in any heap that only adds to `h1`.
    proof fn lemma_function_compiled(&self, prog: Seq<(Instruction, int)>, chunk: Chunk, h1: &ObjectHeap, h2: &ObjectHeap)
        requires
            laid_out(prog, chunk.codes@, chunk.constants@.len() as int),
            names_hold(prog, chunk.constants@, h1.objs()),
            chunk.constants@.len() <= 65536,
            ObjectHeap::only_adds(h1, h2),
        ensures
            well_compiled(chunk, h2.objs()),
            decodes_as(chunk, h2.objs(), prog),
    {
        lemma_laid_out_bounds(prog, chunk.codes@, chunk.constants@.len() as int);
        assert(chunk.constants@.subrange(0, chunk.constants@.len() as int) =~= chunk.constants@);
        lemma_names_hold_grow(prog, chunk.constants@, chunk.constants@, h1, h2);
        lemma_decode_program(chunk, h2.objs(), prog);
        assert(laid_out(prog, chunk.codes@, chunk.constants@.len() as int) && decodes_as(chunk, h2.objs(), prog));
    }

    /// After a forward jump is appended to the code of `u0`, the operand of
    /// the jump is a jump site of the program.
    proof fn lemma_jump_emitted(&self, u0: CompilationUnit, inst: Instruction)
        requires
            self.inv(),
            unit_ok(u0, self.current),
            is_forward_jump(inst),
            encodable(model(inst)),
            self.cur().program@ == u0.program@.push((inst, u0.chunk.constants@.len() as int)),
            self.cur().chunk.codes@ == u0.chunk.codes@ + crate::chunk::encode(model(inst), u0.chunk.constants@.len() as int),
        ensures
            self.cur().chunk.codes@.len() >= 2,
            jump_site(self.cur().program@, self.cur().chunk.codes@.len() - 2),
    {
        let prog = u0.program@;
        let n = u0.chunk.constants@.len() as int;
        lemma_laid_out_push(prog, u0.chunk.codes@, n, inst);
        let k = prog.len() as int;
        assert(crate::chunk::encode(model(inst), n).len() == 3);
        assert(self.cur().program@[k] == (inst, n));
        assert(start_of(self.cur().program@, k) + 1 == self.cur().chunk.codes@.len() - 2);
    }

    /// Point the jump whose operand is at `jump_addr` to the current end of
    /// the code.  A jump too long for the operand is an error.
    fn patch_jump(&mut self, jump_addr: usize)
        requires
            old(self).inv(),
            jump_site(old(self).cur().program@, jump_addr as int),
        ensures
            final(self).inv(),
            Parser::keeps_names(old(self), final(self)),
            final(self).cur().chunk.codes@ == jump_patched(old(self).cur().chunk.codes@, jump_addr as int),
            final(self).cur().chunk.codes@.len() == old(self).cur().chunk.codes@.len(),
            final(self).cur().chunk.constants == old(self).cur().chunk.constants,
            final(self).errors@.len() == old(self).errors@.len()
                + if too_far(old(self).cur().chunk.codes@, jump_addr as int) { 1int } else { 0int },
            Parser::patched_at(old(self), final(self), jump_addr as int),
            Parser::steps(old(self), final(self)),
            Parser::balanced(old(self), final(self)),
            final(self).current == old(self).current,
            final(self).loop_stack == old(self).loop_stack,
            final(self).declared_globals == old(self).declared_globals,
    {
        let last = self.units.len() - 1;
        let ghost u0 = self.units@[last as int];
        let ghost prog = u0.program@;
        let ghost k = choose|k: int| 0 <= k < prog.len() && #[trigger] start_of(prog, k) + 1 == jump_addr && is_forward_jump(prog[k].0);
        proof {
            assert(unit_ok(u0, self.current));
            lemma_patch(prog, u0.chunk.codes@, u0.chunk.constants@.len() as int, k, 0);
        }
        let len = self.units[last].chunk.codes.len();
        let offset = len - jump_addr - 2;
        proof {
            lemma_patch(prog, u0.chunk.codes@, u0.chunk.constants@.len() as int, k, offset);
            reveal(Parser::patched_at);
            assert forall|k2: int| 0 <= k2 < prog.len() && #[trigger] start_of(prog, k2) + 1 == jump_addr implies k2 == k by {
                if k2 < k {
                    lemma_start_increases(prog, k2, k);
                } else if k < k2 {
                    lemma_start_increases(prog, k, k2);
                }
            }
        }
        if offset > 65535 {
            self.record_error_at_current(ParseErrorKind::TooMuchCodeToJumpOver(offset));
        }
        let ghost before = *self;
        let lo = (offset % 256) as u8;
        let hi = ((offset / 256) % 256) as u8;
        self.units[last].chunk.codes.set(jump_addr, lo);
        self.units[last].chunk.codes.set(jump_addr + 1, hi);
        self.units[last].program = Ghost(patched(prog, k, offset));
        proof {
            assert forall|i: int| 0 <= i < self.units@.len() implies unit_ok(#[trigger] self.units@[i], self.current) by {
                if i != last {
                    assert(self.units@[i] == before.units@[i]);
                }
            }
            assert forall|objs: Seq<Option<Object>>| old(self).names_ok(objs) implies #[trigger] self.names_ok(objs) by {
                assert forall|i: int| 0 <= i < self.units@.len() implies names_hold(
                    (#[trigger] self.units@[i]).program@,
                    self.units@[i].chunk.constants@,
                    objs,
                ) by {
                    if i != last {
                        assert(self.units@[i] == old(self).units@[i]);
                    } else {
                        assert(old(self).units@[i] == u0);
                        assert(names_hold(prog, u0.chunk.constants@, objs));
                    }
                }
            }
        }
    }

    /// Emit a backward jump to `loop_start`.  A jump too long for the
    /// operand is an error.
    fn emit_loop(&mut self, loop_start: usize, heap: &mut ObjectHeap)
        requires
            old(self).inv(),
            old(heap).wf(),
            old(self).names_ok(old(heap).objs()),
        ensures
            final(self).inv(),
            final(heap).wf(),
            final(self).names_ok(final(heap).objs()),
            ObjectHeap::only_adds(old(heap), final(heap)),
            Parser::steps(old(self), final(self)),
            Parser::balanced(old(self), final(self)),
            final(self).current == old(self).current,
            final(self).loop_stack == old(self).loop_stack,
            final(self).declared_globals == old(self).declared_globals,
            loop_offset(old(self).cur().chunk.codes@.len() as int, loop_start as int) <= 65535 ==> {
                &&& final(self).cur().program@ == old(self).cur().program@.push((Instruction::Loop(
                    loop_offset(old(self).cur().chunk.codes@.len() as int, loop_start as int) as usize),
                    old(self).cur().chunk.constants@.len() as int))
                &&& final(self).errors@.len() == old(self).errors@.len()
            },
            loop_offset(old(self).cur().chunk.codes@.len() as int, loop_start as int) > 65535 ==> {
                &&& final(self).cur().program@ == old(self).cur().program@
                &&& final(self).errors@.len() == old(self).errors@.len() + 2
            },
    {
        let last = self.units.len() - 1;
        let len = self.units[last].chunk.codes.len();
        let offset: usize = if loop_start <= len && len - loop_start <= usize::MAX - 3 {
            len - loop_start + 3
        } else {
            usize::MAX
        };
        if offset > 65535 {
            self.record_error_at_current(ParseErrorKind::TooMuchCodeToJumpOver(offset));
        }
        self.emit(Instruction::Loop(offset), heap);
    }

    fn emit_return_nil(&mut self, heap: &mut ObjectHeap)
        requires
            old(self).inv(),
            old(heap).wf(),
            old(self).names_ok(old(heap).objs()),
        ensures
            final(self).inv(),
            final(heap).wf(),
            final(self).names_ok(final(heap).objs()),
            ObjectHeap::only_adds(old(heap), final(heap)),
            Parser::steps(old(self), final(self)),
            Parser::balanced(old(self), final(self)),
            final(self).current == old(self).current,
            final(self).loop_stack == old(self).loop_stack,
            final(self).declared_globals == old(self).declared_globals,
            final(self).cur().program@ == old(self).cur().program@
                .push((Instruction::Nil, old(self).cur().chunk.constants@.len() as int))
                .push((Instruction::Return, old(self).cur().chunk.constants@.len() as int)),
            final(self).errors == old(self).errors,
    {
        proof {
            assert(unit_ok(self.cur(), self.current));
        }
        self.emit(Instruction::Nil, heap);
        self.emit(Instruction::Return, heap);
    }
}

/// The classification of a number token's text.
#[derive(Debug, Clone, Copy, PartialEq, Eq, Structural)]
pub enum NumberLiteral {
    /// Digits, a dot and digits: a float, kept as its text.
    Float,
    /// Digits whose value fits an `i64`.
    Int(i64),
    /// Text with a dot that is not digits, a dot and digits.
    BadFloat,
    /// Anything else: no digits, other characters, or a value over `i64::MAX`.
    BadInt,
}

pub open spec fn is_digit_char(c: char) -> bool {
    '0' <= c <= '9'
}

/// `s` is one or more digits, a dot, and one or more digits.
pub open spec fn is_decimal_float(s: Seq<char>) -> bool {
    exists|d: int|
        0 < d < s.len() - 1 && s[d] == '.' && all_digits(s.subrange(0, d)) && all_digits(s.subrange(d + 1, s.len() as int))
}

/// How a number token's text reads.
pub open spec fn number_literal(s: Seq<char>) -> NumberLiteral {
    if s.contains('.') {
        if is_decimal_float(s) {
            NumberLiteral::Float
        } else {
            NumberLiteral::BadFloat
        }
    } else if s.len() > 0 && all_digits(s) && decimal_value(s) <= i64::MAX {
        NumberLiteral::Int(decimal_value(s) as i64)
    } else {
        NumberLiteral::BadInt
    }
}

/// Classify the text of a number token.
pub fn classify_number(s: &Vec<char>) -> (r: NumberLiteral)
    ensures
        r == number_literal(s@),
{
    let n = s.len();
    let mut dot: usize = n;
    let mut i: usize = 0;
    while i < n
        invariant
            i <= n,
            n == s@.len(),
            dot == n ==> forall|k: int| 0 <= k < i ==> s@[k] != '.',
            dot != n ==> dot < i && s@[dot as int] == '.' && forall|k: int| 0 <= k < dot ==> s@[k] != '.',
        decreases n - i,
    {
        if dot == n && s[i] == '.' {
            dot = i;
        }
        i = i + 1;
    }
    if dot == n {
        proof {
            assert(!s@.contains('.'));
        }
        let mut k: usize = 0;
        while k < n
            invariant
                k <= n,
                n == s@.len(),
                !s@.contains('.'),
                forall|j: int| 0 <= j < k ==> '0' <= #[trigger] s@[j] <= '9',
            decreases n - k,
        {
            if !('0' <= s[k] && s[k] <= '9') {
                proof {
                    assert(!all_digits(s@));
                }
                return NumberLiteral::BadInt;
            }
            k = k + 1;
        }
        if n == 0 {
            return NumberLiteral::BadInt;
        }
        match parse_decimal_i64(s) {
            Some(v) => NumberLiteral::Int(v),
            None => NumberLiteral::BadInt,
        }
    } else {
        proof {
            assert(s@.contains('.'));
        }
        // the first dot is at `dot`; a float has digits before and after it
        if dot == 0 || dot + 1 >= n {
            proof {
                if is_decimal_float(s@) {
                    let d = choose|d: int| 0 < d < s@.len() - 1 && s@[d] == '.' && all_digits(s@.subrange(0, d))
                        && all_digits(s@.subrange(d + 1, s@.len() as int));
                    if dot == 0 {
                        assert(s@.subrange(0, d)[0] == s@[0]);
                    } else {
                        assert(d < dot || d == dot);
                        if d < dot {
                            assert(s@[d] != '.');
                        }
                    }
                }
            }
            return NumberLiteral::BadFloat;
        }
        let mut k: usize = 0;
        while k < n
            invariant
                k <= n,
                n == s@.len(),
                0 < dot < n - 1,
                s@[dot as int] == '.',
                forall|j: int| 0 <= j < dot ==> s@[j] != '.',
                forall|j: int| 0 <= j < k && j != dot ==> '0' <= #[trigger] s@[j] <= '9',
            decreases n - k,
        {
            if k != dot && !('0' <= s[k] && s[k] <= '9') {
                proof {
                    if is_decimal_float(s@) {
                        let d = choose|d: int| 0 < d < s@.len() - 1 && s@[d] == '.' && all_digits(s@.subrange(0, d))
                            && all_digits(s@.subrange(d + 1, s@.len() as int));
                        if d < dot {
                            assert(s@.subrange(0, dot as int)[d] == s@[d]);
                        } else if d > dot {
                            assert(s@.subrange(0, d)[dot as int] == s@[dot as int]);
                        } else if k < dot {
                            assert(s@.subrange(0, d)[k as int] == s@[k as int]);
                        } else {
                            assert(s@.subrange(d + 1, s@.len() as int)[k - d - 1] == s@[k as int]);
                        }
                    }
                }
                return NumberLiteral::BadFloat;
            }
            k = k + 1;
        }
        proof {
            let d = dot as int;
            assert(all_digits(s@.subrange(0, d))) by {
                assert forall|j: int| 0 <= j < s@.subrange(0, d).len() implies '0' <= #[trigger] s@.subrange(0, d)[j] <= '9' by {
                    assert(s@.subrange(0, d)[j] == s@[j]);
                }
            }
            assert(all_digits(s@.subrange(d + 1, s@.len() as int))) by {
                assert forall|j: int| 0 <= j < s@.subrange(d + 1, s@.len() as int).len()
                    implies '0' <= #[trigger] s@.subrange(d + 1, s@.len() as int)[j] <= '9' by {
                    assert(s@.subrange(d + 1, s@.len() as int)[j] == s@[d + 1 + j]);
                }
            }
        }
        NumberLiteral::Float
    }
}

/// The text of a string token without its surrounding quotes.
pub open spec fn unquoted(s: Seq<char>) -> Seq<char> {
    if s.len() >= 2 {
        s.subrange(1, s.len() - 1)
    } else {
        Seq::empty()
    }
}

fn strip_quotes(s: &String) -> (r: String)
    ensures
        r@ == unquoted(s@),
{
    let chars = chars_of(s.as_str());
    let n = chars.len();
    let mut out: Vec<char> = Vec::new();
    if n >= 2 {
        let mut i: usize = 1;
        while i < n - 1
            invariant
                1 <= i <= n - 1,
                n == chars@.len(),
                chars@ == s@,
                out@ == chars@.subrange(1, i as int),
            decreases n - 1 - i,
        {
            out.push(chars[i]);
            i = i + 1;
            proof {
                assert(out@ =~= chars@.subrange(1, i as int));
            }
        }
    } else {
        proof {
            assert(out@ =~= Seq::<char>::empty());
        }
    }
    string_from_chars(out)
}

/// `s` preceded by a minus sign.
fn negated_text(s: &String) -> (r: String)
    ensures
        r@ == seq!['-'] + s@,
{
    let chars = chars_of(s.as_str());
    let mut out: Vec<char> = Vec::new();
    out.push('-');
    let mut i: usize = 0;
    while i < chars.len()
        invariant
            i <= chars@.len(),
            chars@ == s@,
            out@ == seq!['-'] + chars@.subrange(0, i as int),
        decreases chars@.len() - i,
    {
        out.push(chars[i]);
        i = i + 1;
        proof {
            assert(out@ =~= seq!['-'] + chars@.subrange(0, i as int));
        }
    }
    proof {
        assert(chars@.subrange(0, chars@.len() as int) =~= chars@);
    }
    string_from_chars(out)
}

fn contains_name(names: &Vec<String>, name: &String) -> (b: bool)
    ensures
        b == exists|j: int| 0 <= j < names@.len() && names@[j]@ == name@,
{
    let mut j: usize = 0;
    while j < names.len()
        invariant
            j <= names@.len(),
            forall|k: int| 0 <= k < j ==> names@[k]@ != name@,
        decreases names@.len() - j,
    {
        if names[j] == *name {
            return true;
        }
        j = j + 1;
    }
    false
}

/// The stem of the last component of a path, as computed by
/// `std::path::Path::file_stem`.
pub uninterp spec fn path_file_stem(path: Seq<char>) -> Option<Seq<char>>;

/// Calls `std::path::Path::file_stem` on `path`.  The contract claims only
/// that the result depends on the characters of `path` alone, and names it
/// `path_file_stem`; what the stem is, is not stated.
#[verifier::external_body]
fn file_stem(path: &str) -> (r: Option<String>)
    ensures
        match r {
            Some(s) => path_file_stem(path@) == Some(s@),
            None => path_file_stem(path@) is None,
        },
{
    match std::path::Path::new(path).file_stem() {
        Some(stem) => match stem.to_str() {
            Some(s) => Some(s.to_string()),
            None => None,
        },
        None => None,
    }
}

/// The module name an import of `path` binds: the stem of the path's last
/// component, or the whole path when it has none.
pub fn derive_module_name(path: &String) -> (r: String)
    ensures
        r@ == match path_file_stem(path@) {
            Some(s) => s,
            None => path@,
        },
{
    match file_stem(path.as_str()) {
        Some(s) => s,
        None => path.clone(),
    }
}

impl Parser {
    fn number(&mut self, heap: &mut ObjectHeap) -> (r: Result<(), ParseError>)
        requires
            old(self).inv(),
            old(heap).wf(),
            old(self).names_ok(old(heap).objs()),
            old(self).current > 0,
        ensures
            final(self).inv(),
            final(heap).wf(),
            final(self).names_ok(final(heap).objs()),
            ObjectHeap::only_adds(old(heap), final(heap)),
            Parser::steps(old(self), final(self)),
            r is Ok ==> Parser::balanced(old(self), final(self)),
            r is Ok <==> (number_literal(old(self).tokens@[old(self).current - 1].lexeme@) is Int
                || number_literal(old(self).tokens@[old(self).current - 1].lexeme@) is Float),
            r is Ok && old(self).cur().chunk.constants@.len() < 65536 ==> exists|h: ObjectHandle| {
                &&& final(self).cur().program@ == old(self).cur().program@.push(
                    (Instruction::Constant(h), old(self).cur().chunk.constants@.len() as int))
                &&& #[trigger] number_object(final(heap).objs()[h.0 as int],
                    number_literal(old(self).tokens@[old(self).current - 1].lexeme@),
                    old(self).tokens@[old(self).current - 1].lexeme@)
            },
            r is Ok && old(self).cur().chunk.constants@.len() >= 65536 ==> final(self).cur().program@ == old(self).cur().program@
                && final(self).errors@.len() == old(self).errors@.len() + 1,
            (old(self).tokens@[old(self).current - 1].kind == TokenKind::Number) ==> (arith_prefix(tokens_view(old(self).tokens@), old(self).current - 1) matches Some((code, j)) ==> (old(self).room_for(code.len() as int)
                ==> r is Ok && Parser::compiled_to(old(self), final(self), final(heap).objs(), code, j))),
            final(self).current == old(self).current,
    {
        let lexeme = self.previous().lexeme.clone();
        let chars = chars_of(lexeme.as_str());
        let ghost h0 = *heap;
        let handle = match classify_number(&chars) {
            NumberLiteral::Float => heap.alloc_float_instance(lexeme),
            NumberLiteral::Int(v) => heap.alloc_integer_instance(v),
            NumberLiteral::BadFloat => {
                return Err(self.error_at_previous(ParseErrorKind::InvalidFloat));
            },
            NumberLiteral::BadInt => {
                return Err(self.error_at_previous(ParseErrorKind::InvalidInteger));
            },
        };
        proof {
            lemma_names_ok_heap(self, &h0, heap);
            assert(unit_ok(self.cur(), self.current));
        }
        let ghost hh = *heap;
        let ghost before = *self;
        self.emit(Instruction::Constant(handle), heap);
        proof {
            assert(number_object(hh.objs()[handle.0 as int], number_literal(lexeme@), lexeme@));
            assert(heap.objs()[handle.0 as int] == hh.objs()[handle.0 as int]);
            assert(number_object(heap.objs()[handle.0 as int], number_literal(lexeme@), lexeme@));
            if let NumberLiteral::Int(v) = number_literal(lexeme@) {
                if before.cur().chunk.constants@.len() < 65536 {
                    let code = seq![ArithItem::Number(v)];
                    assert(self.cur().program@[before.cur().program@.len() as int].0 == Instruction::Constant(handle));
                    assert(item_is(self.cur().program@[before.cur().program@.len() as int].0, code[0], heap.objs()));
                    assert(emits(before.cur().program@, self.cur().program@, code, heap.objs()));
                }
            }
        }
        Ok(())
    }

    fn string(&mut self, heap: &mut ObjectHeap) -> (r: Result<(), ParseError>)
        requires
            old(self).inv(),
            old(heap).wf(),
            old(self).names_ok(old(heap).objs()),
            old(self).current > 0,
        ensures
            final(self).inv(),
            final(heap).wf(),
            final(self).names_ok(final(heap).objs()),
            ObjectHeap::only_adds(old(heap), final(heap)),
            Parser::steps(old(self), final(self)),
            r is Ok ==> Parser::balanced(old(self), final(self)),
            r is Ok <==> unescape(unquoted(old(self).tokens@[old(self).current - 1].lexeme@)) is Ok,
            r is Ok && old(self).cur().chunk.constants@.len() < 65536 ==> exists|h: ObjectHandle| {
                &&& final(self).cur().program@ == old(self).cur().program@.push(
                    (Instruction::Constant(h), old(self).cur().chunk.constants@.len() as int))
                &&& #[trigger] str_of(final(heap).objs()[h.0 as int])
                    == Some(unescape(unquoted(old(self).tokens@[old(self).current - 1].lexeme@))->Ok_0)
            },
            r is Ok && old(self).cur().chunk.constants@.len() >= 65536 ==> final(self).cur().program@ == old(self).cur().program@
                && final(self).errors@.len() == old(self).errors@.len() + 1,
    {
        let prev = self.previous().clone();
        let inner = strip_quotes(&self.previous().lexeme);
        match unescape_string(inner.as_str()) {
            Ok(text) => {
                let ghost h0 = *heap;
                let handle = heap.alloc_string_instance(text);
                proof {
                    lemma_names_ok_heap(self, &h0, heap);
                    assert(unit_ok(self.cur(), self.current));
                }
                let ghost hh = *heap;
                self.emit(Instruction::Constant(handle), heap);
                proof {
                    assert(heap.objs()[handle.0 as int] == hh.objs()[handle.0 as int]);
                }
                Ok(())
            },
            Err(c) => Err(ParseError {
                line: prev.line,
                column: prev.column,
                lexeme: prev.lexeme,
                kind: ParseErrorKind::InvalidEscape(c),
            }),
        }
    }

    fn literal(&mut self, heap: &mut ObjectHeap) -> (r: Result<(), ParseError>)
        requires
            old(self).inv(),
            old(heap).wf(),
            old(self).names_ok(old(heap).objs()),
            old(self).current > 0,
        ensures
            final(self).inv(),
            final(heap).wf(),
            final(self).names_ok(final(heap).objs()),
            ObjectHeap::only_adds(old(heap), final(heap)),
            Parser::steps(old(self), final(self)),
            r is Ok ==> Parser::balanced(old(self), final(self)),
            r is Ok,
            final(self).errors == old(self).errors,
            final(self).cur().program@ == match literal_op(old(self).tokens@[old(self).current - 1].kind) {
                Some(op) => old(self).cur().program@.push((op, old(self).cur().chunk.constants@.len() as int)),
                None => old(self).cur().program@,
            },
    {
        proof {
            assert(unit_ok(self.cur(), self.current));
        }
        match self.previous().kind {
            TokenKind::True => self.emit(Instruction::True, heap),
            TokenKind::False => self.emit(Instruction::False, heap),
            TokenKind::Nil => self.emit(Instruction::Nil, heap),
            _ => {},
        }
        Ok(())
    }

    /// A parameter's default: a number (possibly negated), a string, a
    /// boolean or `nil`.
    fn parse_default_value(&mut self, heap: &mut ObjectHeap) -> (r: Result<ObjectHandle, ParseError>)
        requires
            old(self).inv(),
            old(heap).wf(),
            old(self).names_ok(old(heap).objs()),
        ensures
            final(self).inv(),
            final(heap).wf(),
            final(self).names_ok(final(heap).objs()),
            ObjectHeap::only_adds(old(heap), final(heap)),
            Parser::steps(old(self), final(self)),
            final(self).units == old(self).units,
            final(self).loop_stack == old(self).loop_stack,
            final(self).declared_globals == old(self).declared_globals,
            r is Ok <==> default_ok(old(self).tokens@, old(self).current as int),
            r matches Ok(h) ==> default_object(final(heap), h, old(self).tokens@, old(self).current as int),
    {
        let ghost h0 = *heap;
        let r = {
            let negate = self.match_token(TokenKind::Minus);
            if negate && self.peek().kind != TokenKind::Number {
                return Err(self.error_at_current(ParseErrorKind::InvalidDefaultValue));
            }
            match self.peek().kind {
                TokenKind::Number => {
                    self.advance();
                    let lexeme = self.previous().lexeme.clone();
                    let chars = chars_of(lexeme.as_str());
                    match classify_number(&chars) {
                        NumberLiteral::Float => {
                            let text = if negate { negated_text(&lexeme) } else { lexeme };
                            Ok(heap.alloc_float_instance(text))
                        },
                        NumberLiteral::Int(v) => {
                            proof {
                                lemma_decimal_value_nonneg(chars@);
                            }
                            let value = if negate { -v } else { v };
                            Ok(heap.alloc_integer_instance(value))
                        },
                        NumberLiteral::BadFloat => Err(self.error_at_previous(ParseErrorKind::InvalidFloat)),
                        NumberLiteral::BadInt => Err(self.error_at_previous(ParseErrorKind::InvalidInteger)),
                    }
                },
                TokenKind::String => {
                    self.advance();
                    let inner = strip_quotes(&self.previous().lexeme);
                    match unescape_string(inner.as_str()) {
                        Ok(text) => Ok(heap.alloc_string_instance(text)),
                        Err(c) => Err(self.error_at_previous(ParseErrorKind::InvalidEscape(c))),
                    }
                },
                TokenKind::True => {
                    self.advance();
                    Ok(heap.true_instance())
                },
                TokenKind::False => {
                    self.advance();
                    Ok(heap.false_instance())
                },
                TokenKind::Nil => {
                    self.advance();
                    Ok(ObjectHandle::nil())
                },
                _ => Err(self.error_at_current(ParseErrorKind::InvalidDefaultValue)),
            }
        };
        proof {
            lemma_names_ok_heap(self, &h0, heap);
        }
        r
    }

    /// Patch every jump whose operand is at one of `patches`.
    fn patch_all(&mut self, patches: &Vec<usize>)
        requires
            old(self).inv(),
            forall|j: int| 0 <= j < patches@.len() ==> jump_site(old(self).cur().program@, #[trigger] patches@[j] as int),
        ensures
            final(self).inv(),
            Parser::keeps_names(old(self), final(self)),
            final(self).cur().chunk.codes@ == all_patched(old(self).cur().chunk.codes@, patches@),
            final(self).errors@.len() == old(self).errors@.len()
                + far_count(old(self).cur().chunk.codes@.len() as int, patches@),
            Parser::steps(old(self), final(self)),
            Parser::balanced(old(self), final(self)),
            final(self).current == old(self).current,
            final(self).loop_stack == old(self).loop_stack,
            final(self).declared_globals == old(self).declared_globals,
    {
        let mut k: usize = 0;
        while k < patches.len()
            invariant
                self.inv(),
                Parser::steps(old(self), self),
                Parser::balanced(old(self), self),
                self.current == old(self).current,
                self.loop_stack == old(self).loop_stack,
                self.declared_globals == old(self).declared_globals,
                k <= patches@.len(),
                forall|j: int| 0 <= j < patches@.len() ==> jump_site(self.cur().program@, #[trigger] patches@[j] as int),
                Parser::keeps_names(old(self), self),
                self.cur().chunk.codes@ == all_patched(old(self).cur().chunk.codes@, patches@.take(k as int)),
                self.cur().chunk.codes@.len() == old(self).cur().chunk.codes@.len(),
                self.errors@.len() == old(self).errors@.len()
                    + far_count(old(self).cur().chunk.codes@.len() as int, patches@.take(k as int)),
            decreases patches@.len() - k,
        {
            proof {
                assert(patches@.take(k + 1).drop_last() =~= patches@.take(k as int));
                assert(patches@.take(k + 1).last() == patches@[k as int]);
            }
            self.patch_jump(patches[k]);
            k = k + 1;
        }
        proof {
            assert(patches@.take(k as int) =~= patches@);
        }
    }

    /// Emit the end of the current function: `self` for an initializer,
    /// the dictionary of top-level definitions for a module, `nil`
    /// otherwise; then return.
    fn emit_epilogue(&mut self, heap: &mut ObjectHeap)
        requires
            old(self).inv(),
            old(heap).wf(),
            old(self).names_ok(old(heap).objs()),
        ensures
            final(self).inv(),
            final(heap).wf(),
            final(self).names_ok(final(heap).objs()),
            ObjectHeap::only_adds(old(heap), final(heap)),
            Parser::steps(old(self), final(self)),
            Parser::balanced(old(self), final(self)),
            final(self).current == old(self).current,
            final(self).loop_stack == old(self).loop_stack,
            final(self).declared_globals == old(self).declared_globals,
            forall|i: int| 0 <= i < old(self).units@.len() - 1 ==> #[trigger] final(self).units@[i] == old(self).units@[i],
            old(self).cur().name@ == "__init__"@ ==> {
                &&& final(self).cur().program@ == old(self).cur().program@
                    .push((Instruction::GetLocal(0), old(self).cur().chunk.constants@.len() as int))
                    .push((Instruction::Return, old(self).cur().chunk.constants@.len() as int))
                &&& final(self).errors == old(self).errors
            },
            old(self).cur().name@ != "__init__"@ && old(self).cur().kind != FunctionKind::Module ==> {
                &&& final(self).cur().program@ == old(self).cur().program@
                    .push((Instruction::Nil, old(self).cur().chunk.constants@.len() as int))
                    .push((Instruction::Return, old(self).cur().chunk.constants@.len() as int))
                &&& final(self).errors == old(self).errors
            },
            old(self).cur().name@ != "__init__"@ && old(self).cur().kind == FunctionKind::Module ==> {
                let p0 = old(self).cur().program@;
                let p1 = final(self).cur().program@;
                &&& p0.len() + 1 <= p1.len()
                &&& forall|k: int| 0 <= k < p0.len() ==> #[trigger] p1[k] == p0[k]
                &&& p1.last().0 == Instruction::Return
                &&& final(self).errors@.len() == old(self).errors@.len() ==> p1[p1.len() - 2].0
                    == Instruction::BuildDict(named_count(old(self).cur().locals@, old(self).cur().locals@.len() as int) as usize)
            },
            same_but_chunk(old(self).cur(), final(self).cur()),
    {
        let last = self.units.len() - 1;
        let is_init = is_named(&self.units[last].name, "__init__");
        let is_module = self.units[last].kind == FunctionKind::Module;
        proof {
            assert(unit_ok(self.cur(), self.current));
            reveal_strlit("");
        }
        let ghost p0 = self.cur().program@;
        if is_init {
            self.emit(Instruction::GetLocal(0), heap);
            self.emit(Instruction::Return, heap);
        } else if is_module {
            let num_locals = self.units[last].locals.len();
            let mut export_count: usize = 0;
            let mut i: usize = 1;
            let ghost locals = self.units@[last as int].locals;
            while i < num_locals
                invariant
                    self.inv(),
                    heap.wf(),
                    self.names_ok(heap.objs()),
                    ObjectHeap::only_adds(old(heap), heap),
                    Parser::steps(old(self), self),
                    Parser::balanced(old(self), self),
                    self.current == old(self).current,
                    self.loop_stack == old(self).loop_stack,
                    self.declared_globals == old(self).declared_globals,
                    last == self.units@.len() - 1,
                    self.units@[last as int].locals == locals,
                    num_locals == locals@.len(),
                    export_count <= i,
                    forall|j: int| 0 <= j < old(self).units@.len() - 1 ==> #[trigger] self.units@[j] == old(self).units@[j],
                    1 <= i,
                    i <= num_locals || i == 1,
                    export_count == named_count(locals@, i as int),
                    p0 == old(self).cur().program@,
                    p0.len() <= self.cur().program@.len(),
                    forall|k: int| 0 <= k < p0.len() ==> #[trigger] self.cur().program@[k] == p0[k],
                    self.cur().kind == FunctionKind::Module,
                    self.cur().name == old(self).cur().name,
                    same_but_chunk(old(self).cur(), self.cur()),
                    old(self).errors@.len() <= self.errors@.len(),
                decreases num_locals - i,
            {
                let name = self.units[last].locals[i].name.clone();
                proof {
                    reveal_strlit("");
                    assert(name@ == locals@[i as int].name@);
                    if name@.len() == 0 {
                        assert(name@ =~= ""@);
                    }
                    assert(named_count(locals@, i + 1) == named_count(locals@, i as int)
                        + if locals@[i as int].name@.len() > 0 { 1nat } else { 0nat });
                }
                if !is_named(&name, "") {
                    let ghost h0 = *heap;
                    let name_handle = heap.alloc_string_instance(name);
                    proof {
                        lemma_names_ok_heap(self, &h0, heap);
                    }
                    self.emit(Instruction::Constant(name_handle), heap);
                    self.emit(Instruction::GetLocal(i), heap);
                    export_count = export_count + 1;
                }
                i = i + 1;
            }
            proof {
                assert(locals@ == old(self).cur().locals@);
                if num_locals == 0 {
                    assert(named_count(locals@, 1) == 0);
                    assert(named_count(locals@, 0) == 0);
                } else {
                    assert(i == num_locals);
                    assert(export_count == named_count(locals@, i as int));
                }
                assert(export_count == named_count(old(self).cur().locals@, old(self).cur().locals@.len() as int));
            }
            let ghost mid = *self;
            self.emit(Instruction::BuildDict(export_count), heap);
            let ghost mid2 = *self;
            self.emit(Instruction::Return, heap);
            proof {
                if self.errors@.len() == old(self).errors@.len() {
                    assert(mid2.errors@.len() == mid.errors@.len());
                    assert(mid2.cur().program@.last().0 == Instruction::BuildDict(export_count));
                    assert(self.cur().program@[self.cur().program@.len() - 2] == mid2.cur().program@.last());
                }
            }
        } else {
            self.emit(Instruction::Nil, heap);
            self.emit(Instruction::Return, heap);
        }
    }

    /// Finish the innermost function: emit its end, close it, and store it
    /// in the heap.
    fn finish_compilation_unit(&mut self, heap: &mut ObjectHeap) -> (f: ObjectHandle)
        requires
            old(self).inv(),
            old(heap).wf(),
            old(self).names_ok(old(heap).objs()),
            old(self).units@.len() >= 2,
        ensures
            final(self).inv(),
            final(heap).wf(),
            final(self).names_ok(final(heap).objs()),
            ObjectHeap::only_adds(old(heap), final(heap)),
            final(heap).live(f),
            compiled_function(final(heap).objs(), f),
            final(heap).objs()[f.0 as int] matches Some(Object::Function(func)) && func.name == old(self).cur().name
                && func.arity == old(self).cur().arity && func.param_names == old(self).cur().param_names
                && func.defaults == old(self).cur().defaults,
            old(self).cur().kind != FunctionKind::Module ==> compiled_program(final(heap).objs(), f, with_epilogue(old(self).cur()))
                && final(self).errors@.len() == old(self).errors@.len()
                && fun_names_hold(final(heap).objs(), f, with_epilogue(old(self).cur())),
            final(self).tokens@ == old(self).tokens@,
            old(self).errors@.len() <= final(self).errors@.len(),
            final(self).current == old(self).current,
            final(self).units@ == old(self).units@.drop_last(),
            final(self).loop_stack == old(self).loop_stack,
            final(self).declared_globals == old(self).declared_globals,
    {
        self.emit_epilogue(heap);
        let ghost before = *self;
        match self.units.pop() {
            Some(unit) => {
                let ghost h0 = *heap;
                let ghost prog = unit.program@;
                let ghost chunk = unit.chunk;
                proof {
                    assert forall|i: int| 0 <= i < self.units@.len() implies unit_ok(#[trigger] self.units@[i], self.current) by {
                        assert(self.units@[i] == before.units@[i]);
                    }
                    assert(self.units@ =~= old(self).units@.drop_last());
                    assert forall|i: int| 0 <= i < self.units@.len() implies names_hold(
                        (#[trigger] self.units@[i]).program@,
                        self.units@[i].chunk.constants@,
                        h0.objs(),
                    ) by {
                        assert(self.units@[i] == before.units@[i]);
                    }
                    assert(before.units@[before.units@.len() - 1] == unit);
                    assert(unit_ok(unit, before.current));
                }
                let f = heap.alloc_function(unit.name, unit.arity, unit.required_arity, unit.param_names, unit.defaults, unit.chunk);
                proof {
                    lemma_names_ok_heap(self, &h0, heap);
                    self.lemma_function_compiled(prog, chunk, &h0, heap);
                    lemma_laid_out_bounds(prog, chunk.codes@, chunk.constants@.len() as int);
                    assert(chunk.constants@.subrange(0, chunk.constants@.len() as int) =~= chunk.constants@);
                    lemma_names_hold_grow(prog, chunk.constants@, chunk.constants@, &h0, heap);
                }
                f
            },
            None => {
                proof {
                    assert(false);
                }
                ObjectHandle::nil()
            },
        }
    }

    /// After an error: record it, then skip tokens up to the end of a
    /// statement or the start of the next declaration.
    fn synchronize(&mut self, error: ParseError)
        requires
            old(self).inv(),
        ensures
            final(self).inv(),
            final(self).errors@.len() == old(self).errors@.len() + 1,
            final(self).tokens == old(self).tokens,
            final(self).current >= old(self).current,
            final(self).units == old(self).units,
            final(self).loop_stack == old(self).loop_stack,
            final(self).declared_globals == old(self).declared_globals,
    {
        self.errors.push(error);
        while !self.at_end()
            invariant
                self.inv(),
                self.errors@.len() == old(self).errors@.len() + 1,
                self.tokens == old(self).tokens,
                self.current >= old(self).current,
                self.units == old(self).units,
                self.loop_stack == old(self).loop_stack,
                self.declared_globals == old(self).declared_globals,
            decreases self.tokens@.len() - self.current,
        {
            if self.current > 0 && self.previous().kind == TokenKind::Semicolon {
                return;
            }
            match self.peek().kind {
                TokenKind::Class | TokenKind::Fun | TokenKind::Import | TokenKind::Var | TokenKind::For
                | TokenKind::If | TokenKind::While | TokenKind::Break | TokenKind::Continue | TokenKind::Return => {
                    return;
                },
                _ => {},
            }
            self.advance();
        }
    }
}

impl Parser {
    fn parse_declaration(&mut self, heap: &mut ObjectHeap) -> (r: Result<(), ParseError>)
        requires
            old(self).inv(),
            old(heap).wf(),
            old(self).names_ok(old(heap).objs()),
        ensures
            final(self).inv(),
            final(heap).wf(),
            final(self).names_ok(final(heap).objs()),
            ObjectHeap::only_adds(old(heap), final(heap)),
            Parser::steps(old(self), final(self)),
            r is Ok ==> Parser::balanced(old(self), final(self)),
            !old(self).at_eof() ==> final(self).current > old(self).current,
            arith_prec(tokens_view(old(self).tokens@), old(self).current as int, Prec::Assignment) matches Some((code, j)) ==> (
                j < old(self).tokens@.len() && old(self).tokens@[j].kind == TokenKind::Semicolon && old(self).room_for(code.len() + 1int)
                ==> r is Ok && Parser::compiled_to(old(self), final(self), final(heap).objs(), code.push(ArithItem::Op(Instruction::Pop)), j + 1)),
            old(self).tokens@[old(self).current as int].kind == TokenKind::Var && old(self).cur().scope_depth == 0
                ==> (var_decl(tokens_view(old(self).tokens@), old(self).current + 1) matches Some((code, j))
                ==> (old(self).room_for(code.len() as int)
                ==> r is Ok && Parser::compiled_to(old(self), final(self), final(heap).objs(), code, j))),
            (old(self).tokens@[old(self).current as int].kind == TokenKind::Break
                || old(self).tokens@[old(self).current as int].kind == TokenKind::Continue)
                && old(self).loop_stack@.len() == 0 ==> (r matches Err(e) && (e.kind == ParseErrorKind::BreakOutsideLoop
                || e.kind == ParseErrorKind::ContinueOutsideLoop)),
            old(self).tokens@[old(self).current as int].kind == TokenKind::Fun && old(self).cur().scope_depth == 0
                && old(self).tokens@[old(self).current + 1].kind == TokenKind::Identifier
                ==> (plain_function(tokens_view(old(self).tokens@), old(self).current + 2) matches Some((names, body, e)) ==> (
                distinct_names(names) && names.len() <= 255 && body.len() + 2 <= 65536 && old(self).room_for(2int)
                ==> r is Ok && final(self).current == e && final(self).errors@.len() == old(self).errors@.len()
                && Parser::fun_declared(old(self), final(self), final(heap).objs(),
                    old(self).tokens@[old(self).current + 1].lexeme@, names.len(), body))),
        decreases old(self).tokens@.len() - old(self).current, 9nat,
    {
        if self.match_token(TokenKind::Var) {
            self.parse_var_declaration(heap)
        } else if self.match_token(TokenKind::Fun) {
            self.parse_fun_declaration(heap)
        } else if self.match_token(TokenKind::Class) {
            self.parse_class_declaration(heap)
        } else if self.match_token(TokenKind::Import) {
            self.parse_import_declaration(heap)
        } else {
            self.parse_statement(heap)
        }
    }

    fn declare_variable_name(&mut self, msg: &'static str) -> (r: Result<Option<String>, ParseError>)
        requires
            old(self).inv(),
        ensures
            Parser::same_code(old(self), final(self)),
            final(self).inv(),
            Parser::steps(old(self), final(self)),
            r is Ok ==> Parser::balanced(old(self), final(self)),
            r is Ok ==> final(self).current > old(self).current,
            r matches Ok(n) ==> (n is Some <==> final(self).cur().scope_depth == 0),
            r is Ok <==> old(self).tokens@[old(self).current as int].kind == TokenKind::Identifier
                && !(old(self).cur().scope_depth > 0 && declared_in_scope(old(self).cur().locals@,
                    old(self).cur().scope_depth, old(self).tokens@[old(self).current as int].lexeme@,
                    old(self).cur().locals@.len() as int)),
            r matches Ok(Some(n)) ==> n@ == old(self).tokens@[old(self).current as int].lexeme@,
            r is Ok && old(self).cur().scope_depth > 0 ==> local_added(old(self).cur().locals@,
                final(self).cur().locals@, old(self).tokens@[old(self).current as int].lexeme@),
            r is Ok && old(self).cur().scope_depth == 0 ==> final(self).cur().locals@ == old(self).cur().locals@,
            r is Ok ==> final(self).current == old(self).current + 1 && final(self).errors == old(self).errors,
            final(self).units@.len() == old(self).units@.len(),
            same_but_locals(old(self).cur(), final(self).cur()),
    {
        self.consume(TokenKind::Identifier, msg)?;
        let name = self.previous().lexeme.clone();
        self.add_variable_to_scope(name.clone())?;
        let last = self.units.len() - 1;
        if self.units[last].scope_depth > 0 {
            Ok(None)
        } else {
            Ok(Some(name))
        }
    }

    fn finalize_variable(&mut self, var_name: Option<String>, heap: &mut ObjectHeap) -> (r: Result<(), ParseError>)
        requires
            old(self).inv(),
            old(heap).wf(),
            old(self).names_ok(old(heap).objs()),
        ensures
            final(self).inv(),
            final(heap).wf(),
            final(self).names_ok(final(heap).objs()),
            ObjectHeap::only_adds(old(heap), final(heap)),
            Parser::steps(old(self), final(self)),
            r is Ok ==> Parser::balanced(old(self), final(self)),
            r is Ok,
            final(self).current == old(self).current,
            old(self).cur().scope_depth > 0 ==> final(self).cur().locals@
                == last_initialized(old(self).cur().locals@, old(self).cur().scope_depth)
                && final(self).cur().program == old(self).cur().program && final(self).errors == old(self).errors,
            old(self).cur().scope_depth == 0 ==> match var_name {
                Some(n) => Parser::emitted(old(self), final(self), Instruction::DefineGlobal(n))
                    && exists|j: int| 0 <= j < final(self).declared_globals@.len() && #[trigger] final(self).declared_globals@[j]@ == n@,
                None => final(self).cur().program == old(self).cur().program && final(self).errors == old(self).errors,
            },
            old(self).cur().scope_depth == 0 ==> same_but_chunk(old(self).cur(), final(self).cur())
                && final(self).units@.len() == old(self).units@.len()
                && (var_name matches Some(n) && encodable(model(Instruction::DefineGlobal(n)))
                    && old(self).cur().chunk.constants@.len() + 1 <= 65536 ==> final(self).cur().chunk.constants@.len()
                    <= old(self).cur().chunk.constants@.len() + 1),
    {
        let last = self.units.len() - 1;
        if self.units[last].scope_depth > 0 {
            self.mark_local_initialized();
        } else {
            match var_name {
                Some(name) => {
                    self.declare_global(&name);
                    self.emit(Instruction::DefineGlobal(name), heap);
                },
                None => {},
            }
        }
        Ok(())
    }

    fn parse_var_declaration(&mut self, heap: &mut ObjectHeap) -> (r: Result<(), ParseError>)
        requires
            old(self).inv(),
            old(heap).wf(),
            old(self).names_ok(old(heap).objs()),
        ensures
            final(self).inv(),
            final(heap).wf(),
            final(self).names_ok(final(heap).objs()),
            ObjectHeap::only_adds(old(heap), final(heap)),
            Parser::steps(old(self), final(self)),
            r is Ok ==> Parser::balanced(old(self), final(self)),
            r is Ok ==> final(self).current > old(self).current,
            old(self).cur().scope_depth == 0 ==> (var_decl(tokens_view(old(self).tokens@), old(self).current as int)
                matches Some((code, j)) ==> (old(self).room_for(code.len() as int)
                ==> r is Ok && Parser::compiled_to(old(self), final(self), final(heap).objs(), code, j))),
        decreases old(self).tokens@.len() - old(self).current, 6nat,
    {
        let ghost ts = tokens_view(old(self).tokens@);
        let ghost i = old(self).current as int;
        let ghost ok = old(self).cur().scope_depth == 0 && var_decl(ts, i) is Some
            && old(self).room_for((var_decl(ts, i)->0).0.len() as int);
        let ghost h0 = *heap;
        proof {
            if ok {
                assert(self.tokens@[i].kind == ts[i].kind);
                assert(self.tokens@[i + 1].kind == ts[i + 1].kind);
                assert(self.tokens@[i].lexeme@ == ts[i].lexeme);
            }
        }
        let var_name = self.declare_variable_name("Expect variable name.")?;
        let ghost p1 = *self;
        let ghost mut c: Seq<ArithItem> = Seq::empty();
        proof {
            if ok {
                assert(emits(old(self).cur().program@, p1.cur().program@, c, heap.objs()));
            }
        }
        if self.match_token(TokenKind::Equal) {
            let ghost pm = *self;
            let ghost hm = *heap;
            self.parse_expression(heap)?;
            proof {
                if ok {
                    c = (arith_prec(ts, i + 2, Prec::Assignment)->0).0;
                    assert(pm.cur().program == p1.cur().program);
                    assert(self.tokens@[self.current as int].kind == ts[self.current as int].kind);
                }
            }
        } else {
            let ghost pm = *self;
            let ghost hm = *heap;
            self.emit(Instruction::Nil, heap);
            proof {
                if ok {
                    lemma_emits_push(old(self).cur().program@, pm.cur().program@, c, hm.objs(), Instruction::Nil,
                        pm.cur().chunk.constants@.len() as int);
                    assert(emits(old(self).cur().program@, pm.cur().program@.push((Instruction::Nil, pm.cur().chunk.constants@.len() as int)),
                        c.push(ArithItem::Op(Instruction::Nil)), heap.objs()));
                    c = c.push(ArithItem::Op(Instruction::Nil));
                    assert(c =~= seq![ArithItem::Op(Instruction::Nil)]);
                    assert(self.tokens@[self.current as int].kind == ts[self.current as int].kind);
                }
            }
        }
        self.consume(TokenKind::Semicolon, "Expect ';' after variable declaration.")?;
        let ghost p3 = *self;
        let ghost h3 = *heap;
        proof {
            if ok {
                assert(emits(old(self).cur().program@, p3.cur().program@, c, h3.objs()));
                assert(p3.cur().chunk.constants@.len() <= old(self).cur().chunk.constants@.len() + c.len());
                assert((var_decl(ts, i)->0).0 == c.push(ArithItem::Global(Ghost::new(ts[i].lexeme))));
            }
        }
        self.finalize_variable(var_name, heap)?;
        proof {
            if ok {
                let n = var_name->0;
                let inst = Instruction::DefineGlobal(n);
                assert(encodable(model(inst)));
                assert(emits(old(self).cur().program@, p3.cur().program@, c, heap.objs())) by {
                    assert(emits(p3.cur().program@, p3.cur().program@, Seq::<ArithItem>::empty(), heap.objs()));
                    lemma_emits_trans(old(self).cur().program@, p3.cur().program@, p3.cur().program@, c,
                        Seq::<ArithItem>::empty(), &h3, heap);
                    assert(c + Seq::<ArithItem>::empty() =~= c);
                }
                lemma_emits_push_global(old(self).cur().program@, p3.cur().program@, c, heap.objs(), n,
                    p3.cur().chunk.constants@.len() as int);
                assert(n@ == ts[i].lexeme);
            }
        }
        Ok(())
    }

    fn parse_fun_declaration(&mut self, heap: &mut ObjectHeap) -> (r: Result<(), ParseError>)
        requires
            old(self).inv(),
            old(heap).wf(),
            old(self).names_ok(old(heap).objs()),
        ensures
            final(self).inv(),
            final(heap).wf(),
            final(self).names_ok(final(heap).objs()),
            ObjectHeap::only_adds(old(heap), final(heap)),
            Parser::steps(old(self), final(self)),
            r is Ok ==> Parser::balanced(old(self), final(self)),
            r is Ok ==> final(self).current > old(self).current,
            old(self).cur().scope_depth == 0 && old(self).tokens@[old(self).current as int].kind == TokenKind::Identifier
                ==> (plain_function(tokens_view(old(self).tokens@), old(self).current + 1) matches Some((names, body, e)) ==> (
                distinct_names(names) && names.len() <= 255 && body.len() + 2 <= 65536 && old(self).room_for(2int)
                ==> r is Ok && final(self).current == e && final(self).errors@.len() == old(self).errors@.len()
                && Parser::fun_declared(old(self), final(self), final(heap).objs(),
                    old(self).tokens@[old(self).current as int].lexeme@, names.len(), body))),
        decreases old(self).tokens@.len() - old(self).current, 6nat,
    {
        let ghost ts = tokens_view(old(self).tokens@);
        let ghost i = old(self).current as int;
        let ghost fres = plain_function(ts, i + 1);
        let ghost ok = old(self).cur().scope_depth == 0 && old(self).tokens@[i].kind == TokenKind::Identifier
            && fres is Some && distinct_names((fres->0).0) && (fres->0).0.len() <= 255
            && (fres->0).1.len() + 2 <= 65536 && old(self).room_for(2int);
        let var_name = self.declare_variable_name("Expect variable name.")?;
        self.mark_local_initialized();
        let ghost p2 = *self;
        proof {
            if ok {
                assert(p2.current == i + 1);
                assert(p2.cur().chunk == old(self).cur().chunk);
                assert(p2.cur().program == old(self).cur().program);
                assert(p2.tokens@[p2.current - 1].lexeme@ == old(self).tokens@[i].lexeme@);
            }
        }
        self.parse_function_body(FunctionKind::Function, heap)?;
        let ghost p3 = *self;
        let ghost h3 = *heap;
        self.finalize_variable(var_name, heap)?;
        proof {
            if ok {
                let n = old(self).cur().program@.len();
                let name = old(self).tokens@[i].lexeme@;
                let (names, body, e) = fres->0;
                assert(p3.cur().program@.len() == n + 1);
                let last = p3.cur().program@.last().0;
                if let Instruction::Closure { function: f, upvalues } = last {
                    lemma_compiled_fun_grow(f, name, names.len(), body, &h3, heap);
                }
                let g = var_name->0;
                assert(encodable(model(Instruction::DefineGlobal(g))));
                assert(self.cur().program@ == p3.cur().program@.push((Instruction::DefineGlobal(g), p3.cur().chunk.constants@.len() as int)));
                assert(self.cur().program@[n as int] == p3.cur().program@[n as int]);
                assert forall|q: int| 0 <= q < n implies #[trigger] self.cur().program@[q] == old(self).cur().program@[q] by {
                    assert(self.cur().program@[q] == p3.cur().program@[q]);
                    assert(p3.cur().program@[q] == p2.cur().program@[q]);
                }
            }
        }
        Ok(())
    }

    fn parse_class_declaration(&mut self, heap: &mut ObjectHeap) -> (r: Result<(), ParseError>)
        requires
            old(self).inv(),
            old(heap).wf(),
            old(self).names_ok(old(heap).objs()),
        ensures
            final(self).inv(),
            final(heap).wf(),
            final(self).names_ok(final(heap).objs()),
            ObjectHeap::only_adds(old(heap), final(heap)),
            Parser::steps(old(self), final(self)),
            r is Ok ==> Parser::balanced(old(self), final(self)),
            r is Ok ==> final(self).current > old(self).current,
        decreases old(self).tokens@.len() - old(self).current, 6nat,
    {
        self.consume(TokenKind::Identifier, "Expect class name.")?;
        let class_name = self.previous().lexeme.clone();
        self.add_variable_to_scope(class_name.clone())?;
        self.emit(Instruction::Class(class_name.clone()), heap);
        self.finalize_variable(Some(class_name.clone()), heap)?;
        self.resolve_and_emit_variable(class_name, false, heap)?;
        if self.match_token(TokenKind::Extends) {
            self.consume(TokenKind::Identifier, "Expect superclass name.")?;
            let super_name = self.previous().lexeme.clone();
            self.resolve_and_emit_variable(super_name, false, heap)?;
            self.emit(Instruction::Inherit, heap);
        }
        self.consume(TokenKind::LeftBrace, "Expect '{' before class body.")?;
        while !self.check(TokenKind::RightBrace) && !self.check(TokenKind::Eof)
            invariant
                self.inv(),
                heap.wf(),
                self.names_ok(heap.objs()),
                ObjectHeap::only_adds(old(heap), heap),
                Parser::steps(old(self), self),
                Parser::balanced(old(self), self),
                self.current > old(self).current,
            decreases self.tokens@.len() - self.current,
        {
            self.parse_method(heap)?;
        }
        self.consume(TokenKind::RightBrace, "Expect '}' after class body.")?;
        self.emit(Instruction::Pop, heap);
        Ok(())
    }

    fn parse_import_declaration(&mut self, heap: &mut ObjectHeap) -> (r: Result<(), ParseError>)
        requires
            old(self).inv(),
            old(heap).wf(),
            old(self).names_ok(old(heap).objs()),
        ensures
            final(self).inv(),
            final(heap).wf(),
            final(self).names_ok(final(heap).objs()),
            ObjectHeap::only_adds(old(heap), final(heap)),
            Parser::steps(old(self), final(self)),
            r is Ok ==> Parser::balanced(old(self), final(self)),
            r is Ok ==> final(self).current > old(self).current,
        decreases old(self).tokens@.len() - old(self).current, 6nat,
    {
        self.consume(TokenKind::String, "Expect string literal after 'import'.")?;
        let path = self.previous().lexeme.clone();
        let inner = strip_quotes(&path);
        let module_name = if self.match_token(TokenKind::As) {
            self.consume(TokenKind::Identifier, "Expect module name after 'as'.")?;
            self.previous().lexeme.clone()
        } else {
            derive_module_name(&inner)
        };
        self.emit(Instruction::Import(inner), heap);
        let last = self.units.len() - 1;
        if self.units[last].scope_depth > 0 {
            self.add_variable_to_scope(module_name)?;
            self.mark_local_initialized();
        } else {
            self.declare_global(&module_name);
            self.emit(Instruction::DefineGlobal(module_name), heap);
        }
        self.consume(TokenKind::Semicolon, "Expect ';' after import.")?;
        Ok(())
    }

    fn parse_statement(&mut self, heap: &mut ObjectHeap) -> (r: Result<(), ParseError>)
        requires
            old(self).inv(),
            old(heap).wf(),
            old(self).names_ok(old(heap).objs()),
        ensures
            final(self).inv(),
            final(heap).wf(),
            final(self).names_ok(final(heap).objs()),
            ObjectHeap::only_adds(old(heap), final(heap)),
            Parser::steps(old(self), final(self)),
            r is Ok ==> Parser::balanced(old(self), final(self)),
            !old(self).at_eof() ==> final(self).current > old(self).current,
            arith_prec(tokens_view(old(self).tokens@), old(self).current as int, Prec::Assignment) matches Some((code, j)) ==> (
                j < old(self).tokens@.len() && old(self).tokens@[j].kind == TokenKind::Semicolon && old(self).room_for(code.len() + 1int)
                ==> r is Ok && Parser::compiled_to(old(self), final(self), final(heap).objs(), code.push(ArithItem::Op(Instruction::Pop)), j + 1)),
            (old(self).tokens@[old(self).current as int].kind == TokenKind::Break
                || old(self).tokens@[old(self).current as int].kind == TokenKind::Continue)
                && old(self).loop_stack@.len() == 0 ==> (r matches Err(e) && (e.kind == ParseErrorKind::BreakOutsideLoop
                || e.kind == ParseErrorKind::ContinueOutsideLoop)),
        decreases old(self).tokens@.len() - old(self).current, 8nat,
    {
        if self.match_token(TokenKind::If) {
            self.parse_if_statement(heap)
        } else if self.match_token(TokenKind::While) {
            self.parse_while_statement(heap)
        } else if self.match_token(TokenKind::For) {
            self.parse_for_statement(heap)
        } else if self.match_token(TokenKind::Return) {
            self.parse_return_statement(heap)
        } else if self.match_token(TokenKind::LeftBrace) {
            self.begin_scope();
            self.parse_block(heap)?;
            self.end_scope(heap);
            Ok(())
        } else if self.match_token(TokenKind::Break) {
            self.parse_break_statement(heap)
        } else if self.match_token(TokenKind::Continue) {
            self.parse_continue_statement(heap)
        } else {
            self.parse_expression_statement(heap)
        }
    }

    fn parse_block(&mut self, heap: &mut ObjectHeap) -> (r: Result<(), ParseError>)
        requires
            old(self).inv(),
            old(heap).wf(),
            old(self).names_ok(old(heap).objs()),
        ensures
            final(self).inv(),
            final(heap).wf(),
            final(self).names_ok(final(heap).objs()),
            ObjectHeap::only_adds(old(heap), final(heap)),
            Parser::steps(old(self), final(self)),
            r is Ok ==> Parser::balanced(old(self), final(self)),
            r is Ok ==> final(self).current > old(self).current
                && final(self).tokens@[final(self).current - 1].kind == TokenKind::RightBrace,
            arith_block(tokens_view(old(self).tokens@), old(self).current as int) matches Some((code, e)) ==> (
                old(self).room_for(code.len() as int) ==> r is Ok && Parser::compiled_to(old(self), final(self),
                final(heap).objs(), code, e)),
        decreases old(self).tokens@.len() - old(self).current, 10nat,
    {
        let ghost ts = tokens_view(old(self).tokens@);
        let ghost res = arith_block(ts, old(self).current as int);
        let ghost ok = res is Some && old(self).room_for((res->0).0.len() as int);
        let ghost mut c: Seq<ArithItem> = Seq::empty();
        proof {
            if ok {
                assert(c + (arith_block(ts, old(self).current as int)->0).0 =~= (res->0).0);
                assert(emits(old(self).cur().program@, self.cur().program@, c, heap.objs()));
            }
        }
        while !self.check(TokenKind::RightBrace) && !self.check(TokenKind::Eof)
            invariant
                self.inv(),
                heap.wf(),
                self.names_ok(heap.objs()),
                ObjectHeap::only_adds(old(heap), heap),
                Parser::steps(old(self), self),
                Parser::balanced(old(self), self),
                ts == tokens_view(self.tokens@),
                ok == (res is Some && old(self).room_for((res->0).0.len() as int)),
                res == arith_block(ts, old(self).current as int),
                ok ==> arith_block(ts, self.current as int) is Some,
                ok ==> c + (arith_block(ts, self.current as int)->0).0 == (res->0).0,
                ok ==> (arith_block(ts, self.current as int)->0).1 == (res->0).1,
                ok ==> Parser::compiled_to(old(self), self, heap.objs(), c, self.current as int),
            decreases self.tokens@.len() - self.current,
        {
            let ghost before = *self;
            let ghost hb = *heap;
            let ghost i = self.current as int;
            proof {
                if ok {
                    let (c1, j) = arith_prec(ts, i, Prec::Assignment)->0;
                    let rest = (arith_block(ts, j + 1)->0).0;
                    assert(arith_block(ts, i) == Some((c1.push(ArithItem::Op(Instruction::Pop)) + rest, (arith_block(ts, j + 1)->0).1)));
                    assert((res->0).0 =~= c + (c1.push(ArithItem::Op(Instruction::Pop)) + rest));
                    assert(self.tokens@[j].kind == ts[j].kind);
                }
            }
            self.parse_declaration(heap)?;
            proof {
                if ok {
                    let (c1, j) = arith_prec(ts, i, Prec::Assignment)->0;
                    let rest = (arith_block(ts, j + 1)->0).0;
                    let c2 = c1.push(ArithItem::Op(Instruction::Pop));
                    lemma_emits_trans(old(self).cur().program@, before.cur().program@, self.cur().program@, c, c2, &hb, heap);
                    assert((c + c2) + rest =~= c + (c2 + rest));
                    c = c + c2;
                }
            }
        }
        let ghost pre = *self;
        self.consume(TokenKind::RightBrace, "Expect '}' after block.")?;
        proof {
            if ok {
                assert(ts[pre.current as int].kind == TokenKind::RightBrace);
                assert(c + Seq::<ArithItem>::empty() =~= c);
            }
        }
        Ok(())
    }

    fn parse_method(&mut self, heap: &mut ObjectHeap) -> (r: Result<(), ParseError>)
        requires
            old(self).inv(),
            old(heap).wf(),
            old(self).names_ok(old(heap).objs()),
        ensures
            final(self).inv(),
            final(heap).wf(),
            final(self).names_ok(final(heap).objs()),
            ObjectHeap::only_adds(old(heap), final(heap)),
            Parser::steps(old(self), final(self)),
            r is Ok ==> Parser::balanced(old(self), final(self)),
            r is Ok ==> final(self).current > old(self).current,
        decreases old(self).tokens@.len() - old(self).current, 6nat,
    {
        self.consume(TokenKind::Fun, "Expect fun in method")?;
        self.consume(TokenKind::Identifier, "Expect method name.")?;
        let method_name = self.previous().lexeme.clone();
        self.parse_function_body(FunctionKind::Method, heap)?;
        self.emit(Instruction::Method(method_name), heap);
        Ok(())
    }

    #[verifier::rlimit(100)]
    fn parse_function_body(&mut self, kind: FunctionKind, heap: &mut ObjectHeap) -> (r: Result<(), ParseError>)
        requires
            old(self).inv(),
            old(heap).wf(),
            old(self).names_ok(old(heap).objs()),
            old(self).current > 0,
        ensures
            final(self).inv(),
            final(heap).wf(),
            final(self).names_ok(final(heap).objs()),
            ObjectHeap::only_adds(old(heap), final(heap)),
            Parser::steps(old(self), final(self)),
            r is Ok ==> Parser::balanced(old(self), final(self)),
            r is Ok ==> final(self).current > old(self).current,
            kind == FunctionKind::Function ==> (plain_function(tokens_view(old(self).tokens@), old(self).current as int)
                matches Some((names, body, e)) ==> (
                distinct_names(names) && names.len() <= 255 && body.len() + 2 <= 65536 && old(self).room_for(1int)
                ==> r is Ok && final(self).current == e && final(self).errors@.len() == old(self).errors@.len()
                && final(self).cur().chunk.constants@.len() <= old(self).cur().chunk.constants@.len() + 1
                && final(self).units@.len() == old(self).units@.len()
                && Parser::fun_emitted(old(self), final(self), final(heap).objs(),
                    old(self).tokens@[old(self).current - 1].lexeme@, names.len(), body))),
        decreases old(self).tokens@.len() - old(self).current, 6nat,
    {
        let name = if kind != FunctionKind::Script {
            self.previous().lexeme.clone()
        } else {
            String::new()
        };
        let ghost ts = tokens_view(old(self).tokens@);
        let ghost i0 = old(self).current as int;
        let ghost fres = plain_function(ts, i0);
        let ghost names = (fres->0).0;
        let ghost body = (fres->0).1;
        let ghost e = (fres->0).2;
        let ghost ok = kind == FunctionKind::Function && fres is Some && distinct_names(names) && names.len() <= 255
            && body.len() + 2 <= 65536 && old(self).room_for(1int);
        let ghost k = (plain_params(ts, i0 + 1)->0).1;
        let ghost name0 = old(self).tokens@[i0 - 1].lexeme@;
        let ghost err0 = old(self).errors@.len();
        let ghost mut m: int = 0;
        let mut saved_loop_stack: Vec<LoopContext> = Vec::new();
        std::mem::swap(&mut saved_loop_stack, &mut self.loop_stack);
        let ghost start = *self;
        self.units.push(CompilationUnit::new(name, kind));
        proof {
            assert forall|i: int| 0 <= i < self.units@.len() implies unit_ok(#[trigger] self.units@[i], self.current) by {
                if i < start.units@.len() {
                    assert(self.units@[i] == start.units@[i]);
                }
            }
        }
        self.begin_scope();
        self.consume(TokenKind::LeftParen, "Expect '(' after function name.")?;
        let ghost params_start = self.current;
        proof {
            if ok {
                assert(params_state(self.cur(), names, 0, name0));
                assert(ts[i0].kind == TokenKind::LeftParen);
                if ts[i0 + 1].kind != TokenKind::RightParen {
                    assert(names.subrange(0, names.len() as int) =~= names);
                }
            }
        }
        if !self.check(TokenKind::RightParen) {
            loop
                invariant_except_break
                    ok ==> 0 <= m < names.len() && self.current == i0 + 1 + 2 * m
                        && param_names_from(ts, self.current as int) == Some((names.subrange(m, names.len() as int), k)),
                invariant
                    ts == tokens_view(self.tokens@),
                    ts == tokens_view(old(self).tokens@),
                    i0 == old(self).current as int,
                    fres == plain_function(ts, i0),
                    names == (fres->0).0,
                    body == (fres->0).1,
                    e == (fres->0).2,
                    ok == (kind == FunctionKind::Function && fres is Some && distinct_names(names) && names.len() <= 255
                        && body.len() + 2 <= 65536 && old(self).room_for(1int)),
                    ok ==> params_state(self.cur(), names, m, name0),
                    ok ==> self.errors@.len() == err0,
                    ok ==> distinct_names(names) && names.len() <= 255,
                    self.inv(),
                    heap.wf(),
                    self.names_ok(heap.objs()),
                    ObjectHeap::only_adds(old(heap), heap),
                    Parser::steps(old(self), self),
                    self.units@.len() == old(self).units@.len() + 1,
                    forall|i: int| 0 <= i < self.units@.len() - 1 ==> #[trigger] self.units@[i] == start.units@[i],
                    start.units@.len() == old(self).units@.len(),
                    params_start <= self.current,
                    self.cur().arity <= self.current - params_start,
                    self.cur().required_arity <= self.cur().arity,
                ensures
                    ok ==> m == names.len() && self.current == k,
                decreases self.tokens@.len() - self.current,
            {
                let ghost before = *self;
                let last = self.units.len() - 1;
                self.units[last].arity = self.units[last].arity + 1;
                proof {
                    assert forall|i: int| 0 <= i < self.units@.len() implies unit_ok(#[trigger] self.units@[i], self.current) by {
                        if i != last {
                            assert(self.units@[i] == before.units@[i]);
                        }
                    }
                }
                if self.units[last].arity > 255 {
                    self.record_error_at_current(ParseErrorKind::TooMuchParameter);
                }
                proof {
                    if ok {
                        assert(self.tokens@[self.current as int].kind == ts[self.current as int].kind);
                    }
                }
                self.consume(TokenKind::Identifier, "Expect parameter name.")?;
                let param_name = self.previous().lexeme.clone();
                proof {
                    if ok {
                        let p = i0 + 1 + 2 * m;
                        let sub = names.subrange(m, names.len() as int);
                        assert(sub[0] == names[m]);
                        assert(ts[p].lexeme == names[m]);
                        assert(param_name@ == names[m]);
                        let locals = self.cur().locals@;
                        assert forall|q: int| 0 <= q < locals.len() - 1 implies names[q] != names[m] by {
                            assert(q < m);
                        }
                        lemma_param_not_declared(locals, names, locals.len() as int, names[m]);
                        assert(self.cur().scope_depth == 1);
                        assert(!declared_in_scope(self.cur().locals@, self.cur().scope_depth, param_name@,
                            self.cur().locals@.len() as int));
                    }
                }
                self.add_variable_to_scope(param_name.clone())?;
                let ghost before2 = *self;
                self.units[last].param_names.push(param_name);
                proof {
                    assert forall|i: int| 0 <= i < self.units@.len() implies unit_ok(#[trigger] self.units@[i], self.current) by {
                        if i != last {
                            assert(self.units@[i] == before2.units@[i]);
                        }
                    }
                }
                if self.match_token(TokenKind::Equal) {
                    let default_handle = self.parse_default_value(heap)?;
                    let ghost before3 = *self;
                    self.units[last].defaults.push(default_handle);
                    proof {
                        assert forall|i: int| 0 <= i < self.units@.len() implies unit_ok(#[trigger] self.units@[i], self.current) by {
                            if i != last {
                                assert(self.units@[i] == before3.units@[i]);
                            }
                        }
                    }
                } else {
                    if self.units[last].defaults.len() > 0 {
                        self.record_error_at_current(ParseErrorKind::RequiredAfterOptional);
                    }
                    let ghost before4 = *self;
                    self.units[last].required_arity = self.units[last].required_arity + 1;
                    proof {
                        assert forall|i: int| 0 <= i < self.units@.len() implies unit_ok(#[trigger] self.units@[i], self.current) by {
                            if i != last {
                                assert(self.units@[i] == before4.units@[i]);
                            }
                        }
                    }
                }
                if self.units[last].scope_depth > 0 {
                    self.mark_local_initialized();
                } else {
                    let n = self.previous().lexeme.clone();
                    self.emit(Instruction::DefineGlobal(n), heap);
                }
                proof {
                    if ok {
                        let p = i0 + 1 + 2 * m;
                        let u = self.cur();
                        assert forall|q: int| 0 <= q < m + 1 implies (#[trigger] u.param_names@[q])@ == names[q] by {
                            if q < m {
                                assert(u.param_names@[q] == before.cur().param_names@[q]);
                            }
                        }
                        assert forall|q: int| 1 <= q <= m + 1 implies (#[trigger] u.locals@[q]).depth == 1 && u.locals@[q].name@ == names[q - 1] by {
                            if q <= m {
                                assert(u.locals@[q] == before.cur().locals@[q]);
                            }
                        }
                        assert(params_state(self.cur(), names, m + 1, name0));
                        let sub = names.subrange(m, names.len() as int);
                        if ts[p + 1].kind == TokenKind::Comma {
                            let rest = param_names_from(ts, p + 2);
                            assert(rest is Some);
                            let ns = (rest->0).0;
                            assert(sub =~= seq![ts[p].lexeme] + ns);
                            assert(sub.len() == names.len() - m);
                            assert(sub.len() == ns.len() + 1);
                            assert(0 <= m < names.len());
                            assert forall|j: int| 0 <= j < ns.len() implies ns[j] == names.subrange(m + 1, names.len() as int)[j] by {
                                assert(sub[j + 1] == ns[j]);
                                assert(sub[j + 1] == names[m + 1 + j]);
                                assert(names.subrange(m + 1, names.len() as int)[j] == names[m + 1 + j]);
                            }
                            assert(ns =~= names.subrange(m + 1, names.len() as int));
                        } else {
                            assert(ts[p + 1].kind == TokenKind::RightParen);
                            assert(sub =~= seq![ts[p].lexeme]);
                            assert(sub.len() == 1);
                            assert(sub.len() == names.len() - m);
                            assert(m + 1 == names.len());
                            assert(k == p + 1);
                        }
                    }
                    m = m + 1;
                }
                if !self.match_token(TokenKind::Comma) {
                    break;
                }
            }
        }
        proof {
            if ok {
                lemma_param_names_end(ts, i0 + 1);
                if ts[i0 + 1].kind == TokenKind::RightParen {
                    assert(names.len() == 0);
                    assert(k == i0 + 1);
                }
                assert(ts[k].kind == TokenKind::RightParen);
                assert(self.tokens@[k].kind == ts[k].kind);
                assert(self.tokens@[k + 1].kind == ts[k + 1].kind);
            }
        }
        self.consume(TokenKind::RightParen, "Expect ')' after parameters.")?;
        self.consume(TokenKind::LeftBrace, "Expect '{' before function body.")?;
        let ghost pre_block = *self;
        proof {
            if ok {
                assert(pre_block.room_for(body.len() as int));
            }
        }
        self.parse_block(heap)?;
        let last = self.units.len() - 1;
        let upvalues = self.units[last].upvalues.clone();
        let ghost u_fin = self.cur();
        let ghost hfin = *heap;
        let inner_function = self.finish_compilation_unit(heap);
        let ghost h1 = *heap;
        let ghost enclosing = *self;
        proof {
            if ok {
                assert(enclosing.cur().chunk == old(self).cur().chunk);
                assert(enclosing.cur().program == old(self).cur().program);
            }
        }
        self.emit(Instruction::Closure { function: inner_function, upvalues }, heap);
        self.loop_stack = saved_loop_stack;
        proof {
            if ok {
                let prog = with_epilogue(u_fin);
                lemma_compiled_program_grow(inner_function, prog, &h1, heap);
                let n = u_fin.chunk.constants@.len() as int;
                let epi = epilogue_items(name0);
                assert(u_fin.name@ == name0);
                assert(pre_block.cur().program@ =~= Seq::<(Instruction, int)>::empty());
                assert(emits(Seq::empty(), u_fin.program@, body, hfin.objs()));
                lemma_emits_push(Seq::empty(), u_fin.program@, body, hfin.objs(), epi[0]->Op_0, n);
                lemma_emits_push(Seq::empty(), u_fin.program@.push((epi[0]->Op_0, n)), body.push(epi[0]), hfin.objs(),
                    epi[1]->Op_0, n);
                assert(prog == u_fin.program@.push((epi[0]->Op_0, n)).push((epi[1]->Op_0, n)));
                assert(body.push(epi[0]).push(epi[1]) =~= body + epi);
                assert(emits(prog, prog, Seq::<ArithItem>::empty(), heap.objs()));
                lemma_emits_trans(Seq::empty(), prog, prog, body + epi, Seq::<ArithItem>::empty(), &hfin, heap);
                assert((body + epi) + Seq::<ArithItem>::empty() =~= body + epi);
                assert(compiled_program(heap.objs(), inner_function, prog) && fun_names_hold(heap.objs(), inner_function, prog)
                    && emits(Seq::empty(), prog, body + epi, heap.objs()));
            }
        }
        Ok(())
    }

    fn parse_return_statement(&mut self, heap: &mut ObjectHeap) -> (r: Result<(), ParseError>)
        requires
            old(self).inv(),
            old(heap).wf(),
            old(self).names_ok(old(heap).objs()),
        ensures
            final(self).inv(),
            final(heap).wf(),
            final(self).names_ok(final(heap).objs()),
            ObjectHeap::only_adds(old(heap), final(heap)),
            Parser::steps(old(self), final(self)),
            r is Ok ==> Parser::balanced(old(self), final(self)),
            r is Ok ==> final(self).current > old(self).current,
        decreases old(self).tokens@.len() - old(self).current, 6nat,
    {
        let last = self.units.len() - 1;
        if self.units[last].kind == FunctionKind::Script {
            self.record_error_at_current(ParseErrorKind::ReturnInTop);
        }
        if self.match_token(TokenKind::Semicolon) {
            self.emit_return_nil(heap);
        } else {
            self.parse_expression(heap)?;
            self.consume(TokenKind::Semicolon, "Expect ';' after return value.")?;
            self.emit(Instruction::Return, heap);
        }
        Ok(())
    }

    fn parse_break_statement(&mut self, heap: &mut ObjectHeap) -> (r: Result<(), ParseError>)
        requires
            old(self).inv(),
            old(heap).wf(),
            old(self).names_ok(old(heap).objs()),
            old(self).current > 0,
        ensures
            final(self).inv(),
            final(heap).wf(),
            final(self).names_ok(final(heap).objs()),
            ObjectHeap::only_adds(old(heap), final(heap)),
            Parser::steps(old(self), final(self)),
            r is Ok ==> Parser::balanced(old(self), final(self)),
            r is Ok ==> final(self).current > old(self).current,
            r is Ok <==> old(self).loop_stack@.len() > 0
                && old(self).tokens@[old(self).current as int].kind == TokenKind::Semicolon,
            old(self).loop_stack@.len() == 0 ==> (r matches Err(e) && e.kind == ParseErrorKind::BreakOutsideLoop),
            r is Ok ==> {
                &&& final(self).cur().program@ == old(self).cur().program@.push(
                    (Instruction::Jump(0), old(self).cur().chunk.constants@.len() as int))
                &&& final(self).loop_stack@.last().break_patches@ == old(self).loop_stack@.last().break_patches@.push(
                    (old(self).cur().chunk.codes@.len() + 1) as usize)
                &&& final(self).errors == old(self).errors
            },
    {
        if self.loop_stack.len() == 0 {
            return Err(self.error_at_previous(ParseErrorKind::BreakOutsideLoop));
        }
        let jump_addr = self.emit_jump(false, heap);
        let n = self.loop_stack.len() - 1;
        self.loop_stack[n].break_patches.push(jump_addr);
        self.consume(TokenKind::Semicolon, "Expect ';' after 'break'.")?;
        Ok(())
    }

    fn parse_continue_statement(&mut self, heap: &mut ObjectHeap) -> (r: Result<(), ParseError>)
        requires
            old(self).inv(),
            old(heap).wf(),
            old(self).names_ok(old(heap).objs()),
            old(self).current > 0,
        ensures
            final(self).inv(),
            final(heap).wf(),
            final(self).names_ok(final(heap).objs()),
            ObjectHeap::only_adds(old(heap), final(heap)),
            Parser::steps(old(self), final(self)),
            r is Ok ==> Parser::balanced(old(self), final(self)),
            r is Ok ==> final(self).current > old(self).current,
            r is Ok <==> old(self).loop_stack@.len() > 0
                && old(self).tokens@[old(self).current as int].kind == TokenKind::Semicolon,
            old(self).loop_stack@.len() == 0 ==> (r matches Err(e) && e.kind == ParseErrorKind::ContinueOutsideLoop),
            r is Ok ==> {
                let off = loop_offset(old(self).cur().chunk.codes@.len() as int,
                    old(self).loop_stack@.last().continue_target as int);
                &&& off <= 65535 ==> final(self).cur().program@ == old(self).cur().program@.push(
                    (Instruction::Loop(off as usize), old(self).cur().chunk.constants@.len() as int))
                    && final(self).errors@.len() == old(self).errors@.len()
                &&& off > 65535 ==> final(self).cur().program@ == old(self).cur().program@
                    && final(self).errors@.len() == old(self).errors@.len() + 2
            },
    {
        if self.loop_stack.len() == 0 {
            return Err(self.error_at_previous(ParseErrorKind::ContinueOutsideLoop));
        }
        let n = self.loop_stack.len() - 1;
        let target = self.loop_stack[n].continue_target;
        self.emit_loop(target, heap);
        self.consume(TokenKind::Semicolon, "Expect ';' after 'continue'.")?;
        Ok(())
    }

    #[verifier::rlimit(80)]
    fn parse_for_statement(&mut self, heap: &mut ObjectHeap) -> (r: Result<(), ParseError>)
        requires
            old(self).inv(),
            old(heap).wf(),
            old(self).names_ok(old(heap).objs()),
            old(self).cur().scope_depth <= old(self).current,
            old(self).current > 0,
        ensures
            final(self).inv(),
            final(heap).wf(),
            final(self).names_ok(final(heap).objs()),
            ObjectHeap::only_adds(old(heap), final(heap)),
            Parser::steps(old(self), final(self)),
            r is Ok ==> Parser::balanced(old(self), final(self)),
            r is Ok ==> final(self).current > old(self).current,
        decreases old(self).tokens@.len() - old(self).current, 7nat,
    {
        if !self.check(TokenKind::LeftParen) {
            return self.parse_for_in(heap);
        }
        self.begin_scope();
        self.consume(TokenKind::LeftParen, "Expect '(' after 'for'.")?;
        if self.match_token(TokenKind::Semicolon) {
        } else if self.match_token(TokenKind::Var) {
            self.parse_var_declaration(heap)?;
        } else {
            self.parse_expression_statement(heap)?;
        }
        let last = self.units.len() - 1;
        let mut loop_start = self.units[last].chunk.codes.len();
        let mut exit_jump: Option<usize> = None;
        if !self.match_token(TokenKind::Semicolon) {
            self.parse_expression(heap)?;
            self.consume(TokenKind::Semicolon, "Expect ';' after loop condition.")?;
            exit_jump = Some(self.emit_jump(true, heap));
            self.emit(Instruction::Pop, heap);
        }
        if !self.match_token(TokenKind::RightParen) {
            let body_jump = self.emit_jump(false, heap);
            let increment_start = self.units[last].chunk.codes.len();
            self.parse_expression(heap)?;
            self.emit(Instruction::Pop, heap);
            self.consume(TokenKind::RightParen, "Expect ')' after for clauses.")?;
            self.emit_loop(loop_start, heap);
            loop_start = increment_start;
            self.patch_jump(body_jump);
        }
        let breaks = self.parse_loop_body(loop_start, heap)?;
        self.emit_loop(loop_start, heap);
        match exit_jump {
            Some(exit) => {
                self.patch_jump(exit);
                self.emit(Instruction::Pop, heap);
            },
            None => {},
        }
        self.end_scope(heap);
        self.patch_all(&breaks);
        Ok(())
    }

    #[verifier::rlimit(40)]
    fn parse_for_in(&mut self, heap: &mut ObjectHeap) -> (r: Result<(), ParseError>)
        requires
            old(self).inv(),
            old(heap).wf(),
            old(self).names_ok(old(heap).objs()),
        ensures
            final(self).inv(),
            final(heap).wf(),
            final(self).names_ok(final(heap).objs()),
            ObjectHeap::only_adds(old(heap), final(heap)),
            Parser::steps(old(self), final(self)),
            r is Ok ==> Parser::balanced(old(self), final(self)),
            r is Ok ==> final(self).current > old(self).current,
        decreases old(self).tokens@.len() - old(self).current, 6nat,
    {
        self.consume(TokenKind::Identifier, "Expect loop variable name.")?;
        let var_name = self.previous().lexeme.clone();
        self.consume(TokenKind::In, "Expect 'in' after loop variable.")?;
        self.parse_expression(heap)?;
        self.emit(Instruction::ForInIter, heap);
        self.begin_scope();
        let last = self.units.len() - 1;
        let iterator_slot = self.units[last].locals.len();
        self.add_local(string_from_chars(vec!['_', '_', 'i', 't', 'e', 'r', '_', '_']));
        self.mark_local_initialized();
        self.emit(Instruction::Nil, heap);
        let var_slot = self.units[last].locals.len();
        self.add_local(var_name);
        self.mark_local_initialized();
        let loop_start = self.units[last].chunk.codes.len();
        self.emit(Instruction::GetLocal(iterator_slot), heap);
        let exit_jump = self.emit_for_in_next(heap);
        self.emit(Instruction::SetLocal(var_slot), heap);
        self.emit(Instruction::Pop, heap);
        self.emit(Instruction::Pop, heap);
        let breaks = self.parse_loop_body(loop_start, heap)?;
        self.emit_loop(loop_start, heap);
        self.patch_jump(exit_jump);
        self.emit(Instruction::Pop, heap);
        self.end_scope(heap);
        self.patch_all(&breaks);
        Ok(())
    }

    fn parse_while_statement(&mut self, heap: &mut ObjectHeap) -> (r: Result<(), ParseError>)
        requires
            old(self).inv(),
            old(heap).wf(),
            old(self).names_ok(old(heap).objs()),
        ensures
            final(self).inv(),
            final(heap).wf(),
            final(self).names_ok(final(heap).objs()),
            ObjectHeap::only_adds(old(heap), final(heap)),
            Parser::steps(old(self), final(self)),
            r is Ok ==> Parser::balanced(old(self), final(self)),
            r is Ok ==> final(self).current > old(self).current,
        decreases old(self).tokens@.len() - old(self).current, 6nat,
    {
        let last = self.units.len() - 1;
        let loop_start = self.units[last].chunk.codes.len();
        self.parse_expression(heap)?;
        let exit_jump = self.emit_jump(true, heap);
        self.emit(Instruction::Pop, heap);
        let breaks = self.parse_loop_body(loop_start, heap)?;
        self.emit_loop(loop_start, heap);
        self.patch_jump(exit_jump);
        self.emit(Instruction::Pop, heap);
        self.patch_all(&breaks);
        Ok(())
    }

    /// Compile the body of a loop whose `continue` goes to
    /// `continue_target`, and return the operands of the jumps its `break`s
    /// emitted.
    fn parse_loop_body(&mut self, continue_target: usize, heap: &mut ObjectHeap) -> (r: Result<Vec<usize>, ParseError>)
        requires
            old(self).inv(),
            old(heap).wf(),
            old(self).names_ok(old(heap).objs()),
        ensures
            final(self).inv(),
            final(heap).wf(),
            final(self).names_ok(final(heap).objs()),
            ObjectHeap::only_adds(old(heap), final(heap)),
            Parser::steps(old(self), final(self)),
            r is Ok ==> Parser::balanced(old(self), final(self)),
            r is Ok ==> final(self).loop_stack@ == old(self).loop_stack@,
            r matches Ok(breaks) ==> forall|j: int| 0 <= j < breaks@.len()
                ==> jump_site(final(self).cur().program@, #[trigger] breaks@[j] as int),
            !old(self).at_eof() ==> final(self).current > old(self).current,
        decreases old(self).tokens@.len() - old(self).current, 9nat,
    {
        self.loop_stack.push(LoopContext { continue_target, break_patches: Vec::new() });
        let ghost pushed = *self;
        proof {
            assert(pushed.loop_stack@.last().break_patches@.len() == 0);
            assert(pushed.breaks_ok());
        }
        self.parse_statement(heap)?;
        let ghost body_end = *self;
        match self.loop_stack.pop() {
            Some(c) => {
                proof {
                    assert(self.loop_stack@ =~= old(self).loop_stack@);
                    assert(c == body_end.loop_stack@.last());
                    assert(body_end.breaks_ok());
                    assert(self.cur() == body_end.cur());
                }
                Ok(c.break_patches)
            },
            None => {
                proof {
                    assert(false);
                }
                Ok(Vec::new())
            },
        }
    }

    fn parse_if_statement(&mut self, heap: &mut ObjectHeap) -> (r: Result<(), ParseError>)
        requires
            old(self).inv(),
            old(heap).wf(),
            old(self).names_ok(old(heap).objs()),
        ensures
            final(self).inv(),
            final(heap).wf(),
            final(self).names_ok(final(heap).objs()),
            ObjectHeap::only_adds(old(heap), final(heap)),
            Parser::steps(old(self), final(self)),
            r is Ok ==> Parser::balanced(old(self), final(self)),
            r is Ok ==> final(self).current > old(self).current,
        decreases old(self).tokens@.len() - old(self).current, 6nat,
    {
        self.parse_expression(heap)?;
        let then_jump = self.emit_jump(true, heap);
        self.emit(Instruction::Pop, heap);
        self.parse_statement(heap)?;
        let else_jump = self.emit_jump(false, heap);
        self.patch_jump(then_jump);
        self.emit(Instruction::Pop, heap);
        if self.match_token(TokenKind::Else) {
            self.parse_statement(heap)?;
        }
        self.patch_jump(else_jump);
        Ok(())
    }

    fn parse_expression_statement(&mut self, heap: &mut ObjectHeap) -> (r: Result<(), ParseError>)
        requires
            old(self).inv(),
            old(heap).wf(),
            old(self).names_ok(old(heap).objs()),
        ensures
            final(self).inv(),
            final(heap).wf(),
            final(self).names_ok(final(heap).objs()),
            ObjectHeap::only_adds(old(heap), final(heap)),
            Parser::steps(old(self), final(self)),
            r is Ok ==> Parser::balanced(old(self), final(self)),
            r is Ok ==> final(self).current > old(self).current,
            !old(self).at_eof() ==> final(self).current > old(self).current,
            arith_prec(tokens_view(old(self).tokens@), old(self).current as int, Prec::Assignment) matches Some((code, j)) ==> (
                j < old(self).tokens@.len() && old(self).tokens@[j].kind == TokenKind::Semicolon && old(self).room_for(code.len() + 1int)
                ==> r is Ok && Parser::compiled_to(old(self), final(self), final(heap).objs(), code.push(ArithItem::Op(Instruction::Pop)), j + 1)),
        decreases old(self).tokens@.len() - old(self).current, 3nat,
    {
        self.parse_expression(heap)?;
        self.consume(TokenKind::Semicolon, "expect ';' after expression.")?;
        proof {
            assert(unit_ok(self.cur(), self.current));
        }
        let ghost mid = *self;
        self.emit(Instruction::Pop, heap);
        proof {
            if let Some((c, jj)) = arith_prec(tokens_view(old(self).tokens@), old(self).current as int, Prec::Assignment) {
                if jj < old(self).tokens@.len() && old(self).tokens@[jj].kind == TokenKind::Semicolon && old(self).room_for(c.len() + 1int) {
                lemma_emits_push(old(self).cur().program@, mid.cur().program@, c, heap.objs(), Instruction::Pop,
                    mid.cur().chunk.constants@.len() as int);
                }
            }
        }
        Ok(())
    }

    fn parse_expression(&mut self, heap: &mut ObjectHeap) -> (r: Result<(), ParseError>)
        requires
            old(self).inv(),
            old(heap).wf(),
            old(self).names_ok(old(heap).objs()),
        ensures
            final(self).inv(),
            final(heap).wf(),
            final(self).names_ok(final(heap).objs()),
            ObjectHeap::only_adds(old(heap), final(heap)),
            Parser::steps(old(self), final(self)),
            r is Ok ==> Parser::balanced(old(self), final(self)),
            r is Ok ==> final(self).current > old(self).current,
            !old(self).at_eof() ==> final(self).current > old(self).current,
            arith_prec(tokens_view(old(self).tokens@), old(self).current as int, Prec::Assignment) matches Some((code, j)) ==> (old(self).room_for(code.len() as int)
                ==> r is Ok && Parser::compiled_to(old(self), final(self), final(heap).objs(), code, j)),
        decreases old(self).tokens@.len() - old(self).current, 2nat,
    {
        self.parse_precedence(Prec::Assignment, heap)
    }

    fn parse_precedence(&mut self, precedence: Prec, heap: &mut ObjectHeap) -> (r: Result<(), ParseError>)
        requires
            old(self).inv(),
            old(heap).wf(),
            old(self).names_ok(old(heap).objs()),
        ensures
            final(self).inv(),
            final(heap).wf(),
            final(self).names_ok(final(heap).objs()),
            ObjectHeap::only_adds(old(heap), final(heap)),
            Parser::steps(old(self), final(self)),
            r is Ok ==> Parser::balanced(old(self), final(self)),
            r is Ok ==> final(self).current > old(self).current,
            !old(self).at_eof() ==> final(self).current > old(self).current,
            arith_prec(tokens_view(old(self).tokens@), old(self).current as int, precedence) matches Some((code, j)) ==> (old(self).room_for(code.len() as int)
                ==> r is Ok && Parser::compiled_to(old(self), final(self), final(heap).objs(), code, j)),
        decreases old(self).tokens@.len() - old(self).current, 1nat,
    {
        if self.at_end() {
            return Err(self.error_at_current(ParseErrorKind::ExpectedExpression));
        }
        self.advance();
        let prefix = get_rule(self.previous().kind).prefix;
        let prefix_rule = match prefix {
            Some(p) => p,
            None => {
                return Err(self.error_at_previous(ParseErrorKind::ExpectedExpression));
            },
        };
        let can_assign = !Prec::Assignment.looser_than(precedence);
        let ghost ts = tokens_view(old(self).tokens@);
        let ghost res = arith_prec(ts, old(self).current as int, precedence);
        let ghost ok = res is Some && old(self).room_for((res->0).0.len() as int);
        let ghost c: Seq<ArithItem> = if ok { (arith_prefix(ts, old(self).current as int)->0).0 } else { Seq::empty() };
        proof {
            if ok {
                let (c0, j0) = arith_prefix(ts, old(self).current as int)->0;
                lemma_arith_infix_grows(ts, j0, precedence, c0);
            }
        }
        self.apply_prefix(prefix_rule, can_assign, heap)?;
        proof {
            if ok {
                assert(arith_infix(ts, self.current as int, precedence, c) == res);
            }
        }
        loop
            invariant
                self.inv(),
                heap.wf(),
                self.names_ok(heap.objs()),
                ObjectHeap::only_adds(old(heap), heap),
                Parser::steps(old(self), self),
                Parser::balanced(old(self), self),
                self.current > old(self).current,
                ts == tokens_view(self.tokens@),
                can_assign == can_assign_at(precedence),
                ok ==> arith_infix(ts, self.current as int, precedence, c) == res,
                ok ==> Parser::compiled_to(old(self), self, heap.objs(), c, self.current as int),
                ok ==> old(self).room_for((res->0).0.len() as int),
                ok == (res is Some && old(self).room_for((res->0).0.len() as int)),
                res == arith_prec(ts, old(self).current as int, precedence),
            ensures
                ok ==> res == Some((c, self.current as int)),
            decreases self.tokens@.len() - self.current,
        {
            let next_rule = get_rule(self.peek().kind);
            proof {
                if precedence.rank() == next_rule.precedence.rank() {
                    lemma_rank_injective(precedence, next_rule.precedence);
                }
            }
            if precedence.looser_than(next_rule.precedence) || precedence == next_rule.precedence {
                match next_rule.infix {
                    Some(infix) => {
                        let ghost j = self.current as int;
                        let ghost k = ts[j].kind;
                        let ghost before = *self;
                        let ghost hb = *heap;
                        let ghost c2 = (arith_prec(ts, j + 1, rule_of(k).precedence.tighter())->0).0;
                        proof {
                            if ok {
                                assert(next_rule == rule_of(k));
                                assert(precedence.rank() <= rule_of(k).precedence.rank());
                                assert(rule_of(k).infix == Some(infix));
                                assert(0 <= j < ts.len());
                                assert(arith_infix(ts, j, precedence, c) is Some);
                                if infix != InfixRule::Binary {
                                    assert(arith_infix(ts, j, precedence, c) is None);
                                }
                                assert(infix == InfixRule::Binary);
                                assert(binary_op(k) is Some);
                                assert(arith_prec(ts, j + 1, rule_of(k).precedence.tighter()) is Some);
                                let (cc, jj) = arith_prec(ts, j + 1, rule_of(k).precedence.tighter())->0;
                                assert(j < jj <= ts.len());
                                assert(arith_infix(ts, jj, precedence, c + cc.push(ArithItem::Op(binary_op(k)->0))) == res);
                                lemma_arith_infix_grows(ts, jj, precedence, c + cc.push(ArithItem::Op(binary_op(k)->0)));
                            }
                        }
                        self.advance();
                        let ghost adv = *self;
                        proof {
                            if ok {
                                assert(adv.cur() == before.cur());
                                assert(adv.tokens@[adv.current - 1].kind == k);
                                assert(adv.room_for(c2.len() + 1int));
                            }
                        }
                        self.apply_infix(infix, can_assign, heap)?;
                        proof {
                            if ok {
                                assert(Parser::compiled_to(&adv, self, heap.objs(), c2.push(ArithItem::Op(binary_op(k)->0)),
                                    self.current as int));
                                let c3 = c2.push(ArithItem::Op(binary_op(k)->0));
                                lemma_emits_trans(old(self).cur().program@, before.cur().program@, self.cur().program@,
                                    c, c3, &hb, heap);
                                assert(c + c3 == c + c2.push(ArithItem::Op(binary_op(k)->0)));
                                c = c + c3;
                            }
                        }
                    },
                    None => {
                        break;
                    },
                }
            } else {
                break;
            }
        }
        if can_assign && self.check(TokenKind::Equal) {
            return Err(self.error_at_current(ParseErrorKind::InvalidAssignmentTarget));
        }
        Ok(())
    }

    fn apply_prefix(&mut self, rule: PrefixRule, can_assign: bool, heap: &mut ObjectHeap) -> (r: Result<(), ParseError>)
        requires
            old(self).inv(),
            old(heap).wf(),
            old(self).names_ok(old(heap).objs()),
            old(self).current > 0,
        ensures
            final(self).inv(),
            final(heap).wf(),
            final(self).names_ok(final(heap).objs()),
            ObjectHeap::only_adds(old(heap), final(heap)),
            Parser::steps(old(self), final(self)),
            r is Ok ==> Parser::balanced(old(self), final(self)),
            rule_of(old(self).tokens@[old(self).current - 1].kind).prefix == Some(rule) ==> (arith_prefix(tokens_view(old(self).tokens@), old(self).current - 1) matches Some((code, j)) ==> (old(self).room_for(code.len() as int)
                ==> r is Ok && Parser::compiled_to(old(self), final(self), final(heap).objs(), code, j))),
        decreases old(self).tokens@.len() - old(self).current, 5nat,
    {
        match rule {
            PrefixRule::Grouping => self.grouping(heap),
            PrefixRule::DictLiteral => self.dict_literal(heap),
            PrefixRule::ListLiteral => self.list_literal(heap),
            PrefixRule::Unary => self.unary(heap),
            PrefixRule::Variable => self.variable(can_assign, heap),
            PrefixRule::StringLiteral => self.string(heap),
            PrefixRule::Number => self.number(heap),
            PrefixRule::Literal => self.literal(heap),
            PrefixRule::ImportExpr => self.import_expr(heap),
            PrefixRule::Super => self.super_(heap),
        }
    }

    fn apply_infix(&mut self, rule: InfixRule, can_assign: bool, heap: &mut ObjectHeap) -> (r: Result<(), ParseError>)
        requires
            old(self).inv(),
            old(heap).wf(),
            old(self).names_ok(old(heap).objs()),
            old(self).current > 0,
        ensures
            final(self).inv(),
            final(heap).wf(),
            final(self).names_ok(final(heap).objs()),
            ObjectHeap::only_adds(old(heap), final(heap)),
            Parser::steps(old(self), final(self)),
            r is Ok ==> Parser::balanced(old(self), final(self)),
            rule == InfixRule::Binary ==> (binary_op(old(self).tokens@[old(self).current - 1].kind) matches Some(op) ==> (arith_prec(tokens_view(old(self).tokens@), old(self).current as int,
                rule_of(old(self).tokens@[old(self).current - 1].kind).precedence.tighter()) matches Some((code, j))
                ==> (old(self).room_for(code.len() + 1int) ==> r is Ok && Parser::compiled_to(old(self), final(self),
                final(heap).objs(), code.push(ArithItem::Op(op)), j)))),
        decreases old(self).tokens@.len() - old(self).current, 5nat,
    {
        match rule {
            InfixRule::Call => self.call(heap),
            InfixRule::Index => self.index(can_assign, heap),
            InfixRule::Dot => self.dot(can_assign, heap),
            InfixRule::Binary => self.binary(heap),
            InfixRule::And => self.and(heap),
            InfixRule::Or => self.or(heap),
        }
    }

    #[verifier::spinoff_prover]
    #[verifier::rlimit(100)]
    fn and(&mut self, heap: &mut ObjectHeap) -> (r: Result<(), ParseError>)
        requires
            old(self).inv(),
            old(heap).wf(),
            old(self).names_ok(old(heap).objs()),
        ensures
            final(self).inv(),
            final(heap).wf(),
            final(self).names_ok(final(heap).objs()),
            ObjectHeap::only_adds(old(heap), final(heap)),
            Parser::steps(old(self), final(self)),
            r is Ok ==> Parser::balanced(old(self), final(self)),
            // With the left operand's value on the stack, `and` jumps on a
            // falsey value over a `Pop` of it and the right operand's code,
            // so that value stays the value of the expression; a truthy
            // value is popped and the right operand gives the value.
            arith_prec(tokens_view(old(self).tokens@), old(self).current as int, Prec::And) matches Some((code, j))
                ==> (old(self).room_for(code.len() as int) ==> r is Ok && ({
                let n = old(self).cur().program@.len() as int;
                let p = final(self).cur().program@;
                &&& final(self).current == j
                &&& p.len() == n + 2 + code.len()
                &&& forall|q: int| 0 <= q < n ==> #[trigger] p[q] == old(self).cur().program@[q]
                &&& p[n].0 is JumpIfFalse
                &&& p[n + 1].0 == Instruction::Pop
                &&& emits(p.take(n + 2), p, code, final(heap).objs())
                &&& (start_of(p, p.len() as int) - start_of(p, n + 1) <= 65535 ==> lands_at(p, n, p.len() as int)
                    && final(self).errors@.len() == old(self).errors@.len())
            })),
        decreases old(self).tokens@.len() - old(self).current, 4nat,
    {
        let ghost ts = tokens_view(old(self).tokens@);
        let ghost ok = arith_prec(ts, old(self).current as int, Prec::And) is Some
            && old(self).room_for((arith_prec(ts, old(self).current as int, Prec::And)->0).0.len() as int);
        let ghost n = old(self).cur().program@.len() as int;
        let ghost s0 = old(self).cur().chunk.codes@.len() as int;
        proof {
            old(self).lemma_cur_layout();
        }
        let then_jump = self.emit_jump(true, heap);
        let ghost p1 = *self;
        proof {
            p1.lemma_cur_layout();
            assert(old(self).cur().program@.take(n) =~= old(self).cur().program@);
            assert(p1.cur().program@.take(n + 1) =~= p1.cur().program@);
            assert(p1.cur().program@.take(n) =~= old(self).cur().program@);
            assert(start_of(old(self).cur().program@, n) == s0);
            assert(start_of(p1.cur().program@, n + 1) == s0 + 3);
            assert(start_of(p1.cur().program@, n) == s0);
        }
        self.emit(Instruction::Pop, heap);
        let ghost p2 = *self;
        proof {
            assert(p2.cur().program@ == p1.cur().program@.push((Instruction::Pop, p1.cur().chunk.constants@.len() as int)));
            assert(p2.cur().chunk.constants@.len() == old(self).cur().chunk.constants@.len());
        }
        self.parse_precedence(Prec::And, heap)?;
        let ghost p3 = *self;
        proof {
            if ok {
                p3.lemma_cur_layout();
                let p3p = p3.cur().program@;
                assert(p3p.take(n) =~= p1.cur().program@.take(n));
                assert(p3p.take(n + 1) =~= p1.cur().program@);
                assert(start_of(p3p, n) == s0);
                assert(start_of(p3p, n + 1) == s0 + 3);
            }
        }
        self.patch_jump(then_jump);
        proof {
            reveal(Parser::patched_at);
            if ok {
                let p3p = p3.cur().program@;
                let off = (p3.cur().chunk.codes@.len() - (s0 + 1) - 2) as usize;
                lemma_patch(p3p, p3.cur().chunk.codes@, p3.cur().chunk.constants@.len() as int, n, off);
                let p = self.cur().program@;
                assert(p == patched(p3p, n, off));
                assert forall|q: int| 0 <= q < n implies #[trigger] p[q] == old(self).cur().program@[q] by {
                    assert(p[q] == p3p[q]);
                    assert(p3p[q] == p2.cur().program@[q]);
                    assert(p1.cur().program@[q] == old(self).cur().program@[q]);
                }
                assert(p[n + 1] == p3p[n + 1]);
                assert(p3p[n + 1] == p2.cur().program@[n + 1]);
                assert(start_of(p, n + 1) == s0 + 3);
                let (code, j) = arith_prec(ts, old(self).current as int, Prec::And)->0;
                assert forall|k: int| 0 <= k < code.len() implies item_is(#[trigger] p[n + 2 + k].0, code[k], heap.objs()) by {
                    assert(p[n + 2 + k] == p3p[n + 2 + k]);
                    assert(item_is(p3p[p2.cur().program@.len() + k].0, code[k], heap.objs()));
                }
                assert(emits(p.take(n + 2), p, code, heap.objs()));
                assert(start_of(p, p.len() as int) == p3.cur().chunk.codes@.len());
            }
        }
        Ok(())
    }

    #[verifier::spinoff_prover]
    #[verifier::rlimit(100)]
    fn or(&mut self, heap: &mut ObjectHeap) -> (r: Result<(), ParseError>)
        requires
            old(self).inv(),
            old(heap).wf(),
            old(self).names_ok(old(heap).objs()),
        ensures
            final(self).inv(),
            final(heap).wf(),
            final(self).names_ok(final(heap).objs()),
            ObjectHeap::only_adds(old(heap), final(heap)),
            Parser::steps(old(self), final(self)),
            r is Ok ==> Parser::balanced(old(self), final(self)),
            // With the left operand's value on the stack, `or` jumps on a
            // falsey value over an unconditional jump to a `Pop` of it and
            // the right operand's code; a truthy value takes that jump over
            // them and stays the value of the expression.
            arith_prec(tokens_view(old(self).tokens@), old(self).current as int, Prec::Or) matches Some((code, j))
                ==> (old(self).room_for(code.len() as int) ==> r is Ok && ({
                let n = old(self).cur().program@.len() as int;
                let p = final(self).cur().program@;
                &&& final(self).current == j
                &&& p.len() == n + 3 + code.len()
                &&& forall|q: int| 0 <= q < n ==> #[trigger] p[q] == old(self).cur().program@[q]
                &&& p[n].0 is JumpIfFalse && lands_at(p, n, n + 2)
                &&& p[n + 1].0 is Jump
                &&& p[n + 2].0 == Instruction::Pop
                &&& emits(p.take(n + 3), p, code, final(heap).objs())
                &&& (start_of(p, p.len() as int) - start_of(p, n + 2) <= 65535 ==> lands_at(p, n + 1, p.len() as int)
                    && final(self).errors@.len() == old(self).errors@.len())
            })),
        decreases old(self).tokens@.len() - old(self).current, 4nat,
    {
        let ghost ts = tokens_view(old(self).tokens@);
        let ghost ok = arith_prec(ts, old(self).current as int, Prec::Or) is Some
            && old(self).room_for((arith_prec(ts, old(self).current as int, Prec::Or)->0).0.len() as int);
        let ghost n = old(self).cur().program@.len() as int;
        let ghost s0 = old(self).cur().chunk.codes@.len() as int;
        proof {
            old(self).lemma_cur_layout();
        }
        let else_jump = self.emit_jump(true, heap);
        let ghost p1 = *self;
        let end_jump = self.emit_jump(false, heap);
        let ghost p2 = *self;
        proof {
            p1.lemma_cur_layout();
            p2.lemma_cur_layout();
            assert(p2.cur().program@.take(n) =~= old(self).cur().program@);
            assert(p2.cur().program@.take(n + 1) =~= p1.cur().program@);
            assert(old(self).cur().program@.take(n) =~= old(self).cur().program@);
            assert(p1.cur().program@.take(n + 1) =~= p1.cur().program@);
            assert(start_of(old(self).cur().program@, n) == s0);
            assert(start_of(p1.cur().program@, n + 1) == s0 + 3);
            assert(start_of(p2.cur().program@, n) == s0);
            assert(start_of(p2.cur().program@, n + 1) == s0 + 3);
        }
        self.patch_jump(else_jump);
        let ghost p3 = *self;
        proof {
            reveal(Parser::patched_at);
            lemma_patch(p2.cur().program@, p2.cur().chunk.codes@, p2.cur().chunk.constants@.len() as int, n, 3);
            assert(p3.cur().program@ == patched(p2.cur().program@, n, 3));
        }
        self.emit(Instruction::Pop, heap);
        let ghost p4 = *self;
        proof {
            assert(p4.cur().program@ == p3.cur().program@.push((Instruction::Pop, p3.cur().chunk.constants@.len() as int)));
            assert(p4.cur().chunk.constants@.len() == old(self).cur().chunk.constants@.len());
        }
        self.parse_precedence(Prec::Or, heap)?;
        let ghost p5 = *self;
        proof {
            if ok {
                p5.lemma_cur_layout();
                let p5p = p5.cur().program@;
                assert(p5p.take(n + 1) =~= p3.cur().program@.take(n + 1));
                assert(p5p.take(n + 2) =~= p3.cur().program@);
                assert(p3.cur().program@.take(n + 1) =~= patched(p2.cur().program@, n, 3).take(n + 1));
                assert(start_of(p3.cur().program@, n + 1) == s0 + 3);
                assert(start_of(p5p, n + 1) == s0 + 3);
                assert(start_of(p5p, n + 2) == s0 + 6);
            }
        }
        self.patch_jump(end_jump);
        proof {
            reveal(Parser::patched_at);
            if ok {
                let p5p = p5.cur().program@;
                let off = (p5.cur().chunk.codes@.len() - (s0 + 4) - 2) as usize;
                lemma_patch(p5p, p5.cur().chunk.codes@, p5.cur().chunk.constants@.len() as int, n + 1, off);
                let p = self.cur().program@;
                assert(p == patched(p5p, n + 1, off));
                assert(p[n] == p5p[n]);
                assert(p5p[n] == p3.cur().program@[n]);
                assert forall|q: int| 0 <= q < n implies #[trigger] p[q] == old(self).cur().program@[q] by {
                    assert(p[q] == p5p[q]);
                    assert(p5p[q] == p4.cur().program@[q]);
                    assert(p3.cur().program@[q] == p2.cur().program@[q]);
                }
                assert(start_of(p, n + 1) == s0 + 3);
                assert(start_of(p, n + 2) == s0 + 6);
                assert(lands_at(p, n, n + 2));
                let (code, j) = arith_prec(ts, old(self).current as int, Prec::Or)->0;
                assert forall|k: int| 0 <= k < code.len() implies item_is(#[trigger] p[n + 3 + k].0, code[k], heap.objs()) by {
                    assert(p[n + 3 + k] == p5p[n + 3 + k]);
                    assert(item_is(p5p[p4.cur().program@.len() + k].0, code[k], heap.objs()));
                }
                assert(emits(p.take(n + 3), p, code, heap.objs()));
                assert(start_of(p, p.len() as int) == p5.cur().chunk.codes@.len());
            }
        }
        Ok(())
    }

    fn grouping(&mut self, heap: &mut ObjectHeap) -> (r: Result<(), ParseError>)
        requires
            old(self).inv(),
            old(heap).wf(),
            old(self).names_ok(old(heap).objs()),
        ensures
            final(self).inv(),
            final(heap).wf(),
            final(self).names_ok(final(heap).objs()),
            ObjectHeap::only_adds(old(heap), final(heap)),
            Parser::steps(old(self), final(self)),
            r is Ok ==> Parser::balanced(old(self), final(self)),
            r is Ok ==> final(self).current > old(self).current
                && final(self).tokens@[final(self).current - 1].kind == TokenKind::RightParen,
            (old(self).tokens@[old(self).current - 1].kind == TokenKind::LeftParen) ==> (arith_prefix(tokens_view(old(self).tokens@), old(self).current - 1) matches Some((code, j)) ==> (old(self).room_for(code.len() as int)
                ==> r is Ok && Parser::compiled_to(old(self), final(self), final(heap).objs(), code, j))),
        decreases old(self).tokens@.len() - old(self).current, 4nat,
    {
        self.parse_expression(heap)?;
        self.consume(TokenKind::RightParen, "expect ')' after expression.")?;
        Ok(())
    }

    fn unary(&mut self, heap: &mut ObjectHeap) -> (r: Result<(), ParseError>)
        requires
            old(self).inv(),
            old(heap).wf(),
            old(self).names_ok(old(heap).objs()),
            old(self).current > 0,
        ensures
            final(self).inv(),
            final(heap).wf(),
            final(self).names_ok(final(heap).objs()),
            ObjectHeap::only_adds(old(heap), final(heap)),
            Parser::steps(old(self), final(self)),
            r is Ok ==> Parser::balanced(old(self), final(self)),
            r is Ok ==> (unary_op(old(self).tokens@[old(self).current - 1].kind) matches Some(op)
                ==> final(self).cur().program@.len() > 0 && final(self).cur().program@.last().0 == op),
            (old(self).tokens@[old(self).current - 1].kind == TokenKind::Minus || old(self).tokens@[old(self).current - 1].kind == TokenKind::Bang) ==> (arith_prefix(tokens_view(old(self).tokens@), old(self).current - 1) matches Some((code, j)) ==> (old(self).room_for(code.len() as int)
                ==> r is Ok && Parser::compiled_to(old(self), final(self), final(heap).objs(), code, j))),
        decreases old(self).tokens@.len() - old(self).current, 4nat,
    {
        let op_kind = self.previous().kind;
        self.parse_precedence(Prec::Unary, heap)?;
        proof {
            assert(unit_ok(self.cur(), self.current));
        }
        let ghost mid = *self;
        let ghost n = self.cur().chunk.constants@.len() as int;
        match op_kind {
            TokenKind::Minus => self.emit(Instruction::Negate, heap),
            TokenKind::Bang => self.emit(Instruction::Not, heap),
            _ => {},
        }
        proof {
            if let Some((c, jj)) = arith_prec(tokens_view(old(self).tokens@), old(self).current as int, Prec::Unary) {
                if (op_kind == TokenKind::Minus || op_kind == TokenKind::Bang) && old(self).room_for(c.len() + 1int) {
                    lemma_emits_push(old(self).cur().program@, mid.cur().program@, c, heap.objs(), unary_op(op_kind)->0, n);
                }
            }
        }
        Ok(())
    }

    fn binary(&mut self, heap: &mut ObjectHeap) -> (r: Result<(), ParseError>)
        requires
            old(self).inv(),
            old(heap).wf(),
            old(self).names_ok(old(heap).objs()),
            old(self).current > 0,
        ensures
            final(self).inv(),
            final(heap).wf(),
            final(self).names_ok(final(heap).objs()),
            ObjectHeap::only_adds(old(heap), final(heap)),
            Parser::steps(old(self), final(self)),
            r is Ok ==> Parser::balanced(old(self), final(self)),
            r is Ok ==> (binary_op(old(self).tokens@[old(self).current - 1].kind) matches Some(op)
                ==> final(self).cur().program@.len() > 0 && final(self).cur().program@.last().0 == op),
            binary_op(old(self).tokens@[old(self).current - 1].kind) matches Some(op) ==> (arith_prec(tokens_view(old(self).tokens@), old(self).current as int,
                rule_of(old(self).tokens@[old(self).current - 1].kind).precedence.tighter()) matches Some((code, j))
                ==> (old(self).room_for(code.len() + 1int) ==> r is Ok && Parser::compiled_to(old(self), final(self),
                final(heap).objs(), code.push(ArithItem::Op(op)), j))),
        decreases old(self).tokens@.len() - old(self).current, 4nat,
    {
        let op_kind = self.previous().kind;
        let rule = get_rule(op_kind);
        self.parse_precedence(rule.precedence.next(), heap)?;
        proof {
            assert(unit_ok(self.cur(), self.current));
        }
        match op_kind {
            TokenKind::Plus => self.emit(Instruction::Add, heap),
            TokenKind::Minus => self.emit(Instruction::Sub, heap),
            TokenKind::Star => self.emit(Instruction::Mul, heap),
            TokenKind::Slash => self.emit(Instruction::Div, heap),
            TokenKind::Percent => self.emit(Instruction::Mod, heap),
            TokenKind::TildeSlash => self.emit(Instruction::FloorDiv, heap),
            TokenKind::EqualEqual => self.emit(Instruction::Equal, heap),
            TokenKind::BangEqual => self.emit(Instruction::NotEqual, heap),
            TokenKind::Less => self.emit(Instruction::Less, heap),
            TokenKind::Greater => self.emit(Instruction::Greater, heap),
            TokenKind::LessEqual => self.emit(Instruction::LessEqual, heap),
            TokenKind::GreaterEqual => self.emit(Instruction::GreaterEqual, heap),
            _ => {},
        }
        Ok(())
    }

    fn variable(&mut self, can_assign: bool, heap: &mut ObjectHeap) -> (r: Result<(), ParseError>)
        requires
            old(self).inv(),
            old(heap).wf(),
            old(self).names_ok(old(heap).objs()),
            old(self).current > 0,
        ensures
            final(self).inv(),
            final(heap).wf(),
            final(self).names_ok(final(heap).objs()),
            ObjectHeap::only_adds(old(heap), final(heap)),
            Parser::steps(old(self), final(self)),
            r is Ok ==> Parser::balanced(old(self), final(self)),
            r is Ok ==> final(self).errors@.len() > old(self).errors@.len()
                || accesses(old(self), final(self).cur().program@, old(self).tokens@[old(self).current - 1].lexeme@),
        decreases old(self).tokens@.len() - old(self).current, 4nat,
    {
        let name = self.previous().lexeme.clone();
        self.resolve_and_emit_variable(name, can_assign, heap)
    }

    fn call(&mut self, heap: &mut ObjectHeap) -> (r: Result<(), ParseError>)
        requires
            old(self).inv(),
            old(heap).wf(),
            old(self).names_ok(old(heap).objs()),
        ensures
            final(self).inv(),
            final(heap).wf(),
            final(self).names_ok(final(heap).objs()),
            ObjectHeap::only_adds(old(heap), final(heap)),
            Parser::steps(old(self), final(self)),
            r is Ok ==> Parser::balanced(old(self), final(self)),
            r is Ok ==> final(self).errors@.len() > old(self).errors@.len() || (final(self).cur().program@.len() > 0
                && (final(self).cur().program@.last().0 is Call || final(self).cur().program@.last().0 is CallKw)),
        decreases old(self).tokens@.len() - old(self).current, 4nat,
    {
        let (pos_count, kw_count, kw_names) = self.parse_argument_list(heap)?;
        if kw_count > 0 {
            self.emit(Instruction::CallKw { pos_count, kw_count, kw_names }, heap);
        } else {
            self.emit(Instruction::Call(pos_count), heap);
        }
        Ok(())
    }

    fn dot(&mut self, can_assign: bool, heap: &mut ObjectHeap) -> (r: Result<(), ParseError>)
        requires
            old(self).inv(),
            old(heap).wf(),
            old(self).names_ok(old(heap).objs()),
        ensures
            final(self).inv(),
            final(heap).wf(),
            final(self).names_ok(final(heap).objs()),
            ObjectHeap::only_adds(old(heap), final(heap)),
            Parser::steps(old(self), final(self)),
            r is Ok ==> Parser::balanced(old(self), final(self)),
            r is Ok ==> final(self).errors@.len() > old(self).errors@.len() || (final(self).cur().program@.len() > 0
                && (final(self).cur().program@.last().0 is Invoke || final(self).cur().program@.last().0 is SetProperty
                || final(self).cur().program@.last().0 is GetProperty)),
        decreases old(self).tokens@.len() - old(self).current, 4nat,
    {
        self.consume(TokenKind::Identifier, "Expect property name after '.'.")?;
        let field_name = self.previous().lexeme.clone();
        if self.match_token(TokenKind::LeftParen) {
            let (pos_count, kw_count, _kw_names) = self.parse_argument_list(heap)?;
            let arg_count = pos_count + kw_count;
            if kw_count > 0 {
                self.record_error_at_current(ParseErrorKind::ExpectedExpression);
            }
            self.emit(Instruction::Invoke(field_name, arg_count), heap);
        } else if can_assign && self.match_token(TokenKind::Equal) {
            self.parse_expression(heap)?;
            self.emit(Instruction::SetProperty(field_name), heap);
        } else {
            self.emit(Instruction::GetProperty(field_name), heap);
        }
        Ok(())
    }

    fn import_expr(&mut self, heap: &mut ObjectHeap) -> (r: Result<(), ParseError>)
        requires
            old(self).inv(),
            old(heap).wf(),
            old(self).names_ok(old(heap).objs()),
        ensures
            final(self).inv(),
            final(heap).wf(),
            final(self).names_ok(final(heap).objs()),
            ObjectHeap::only_adds(old(heap), final(heap)),
            Parser::steps(old(self), final(self)),
            r is Ok ==> Parser::balanced(old(self), final(self)),
            r is Ok <==> old(self).tokens@[old(self).current as int].kind == TokenKind::String,
            r is Ok && old(self).cur().chunk.constants@.len() < 65536 ==> exists|path: String| {
                &&& final(self).cur().program@ == old(self).cur().program@.push(
                    (Instruction::Import(path), old(self).cur().chunk.constants@.len() as int))
                &&& #[trigger] path@ == unquoted(old(self).tokens@[old(self).current as int].lexeme@)
            },
            r is Ok && old(self).cur().chunk.constants@.len() >= 65536 ==> final(self).cur().program@ == old(self).cur().program@
                && final(self).errors@.len() == old(self).errors@.len() + 1,
        decreases old(self).tokens@.len() - old(self).current, 4nat,
    {
        self.consume(TokenKind::String, "Expect string literal after 'import'.")?;
        let inner = strip_quotes(&self.previous().lexeme);
        let ghost path = inner;
        self.emit(Instruction::Import(inner), heap);
        proof {
            assert(self.cur().program@.last().0 == Instruction::Import(path) || old(self).cur().chunk.constants@.len() >= 65536);
        }
        Ok(())
    }

    fn super_(&mut self, heap: &mut ObjectHeap) -> (r: Result<(), ParseError>)
        requires
            old(self).inv(),
            old(heap).wf(),
            old(self).names_ok(old(heap).objs()),
        ensures
            final(self).inv(),
            final(heap).wf(),
            final(self).names_ok(final(heap).objs()),
            ObjectHeap::only_adds(old(heap), final(heap)),
            Parser::steps(old(self), final(self)),
            r is Ok ==> Parser::balanced(old(self), final(self)),
            r is Ok ==> final(self).errors@.len() > old(self).errors@.len() || (final(self).cur().program@.len() > 0
                && final(self).cur().program@.last().0 is SuperInvoke),
        decreases old(self).tokens@.len() - old(self).current, 4nat,
    {
        self.consume(TokenKind::Dot, "Expect '.' after 'super'.")?;
        self.consume(TokenKind::Identifier, "Expect superclass method name after 'super.'.")?;
        let method_name = self.previous().lexeme.clone();
        self.emit(Instruction::GetLocal(0), heap);
        if self.match_token(TokenKind::LeftParen) {
            let (pos_count, kw_count, _kw_names) = self.parse_argument_list(heap)?;
            let arg_count = pos_count + kw_count;
            if kw_count > 0 {
                self.record_error_at_current(ParseErrorKind::ExpectedExpression);
            }
            self.emit(Instruction::SuperInvoke(method_name, arg_count), heap);
            Ok(())
        } else {
            Err(self.error_at_current(ParseErrorKind::ExpectedToken("Expect '(' after super method name.")))
        }
    }

    fn dict_literal(&mut self, heap: &mut ObjectHeap) -> (r: Result<(), ParseError>)
        requires
            old(self).inv(),
            old(heap).wf(),
            old(self).names_ok(old(heap).objs()),
        ensures
            final(self).inv(),
            final(heap).wf(),
            final(self).names_ok(final(heap).objs()),
            ObjectHeap::only_adds(old(heap), final(heap)),
            Parser::steps(old(self), final(self)),
            r is Ok ==> Parser::balanced(old(self), final(self)),
            r is Ok ==> final(self).tokens@[final(self).current - 1].kind == TokenKind::RightBrace
                && (final(self).errors@.len() > old(self).errors@.len() || (final(self).cur().program@.len() > 0
                && (final(self).cur().program@.last().0 is BuildDict || final(self).cur().program@.last().0 is BuildSet))),
        decreases old(self).tokens@.len() - old(self).current, 4nat,
    {
        if self.check(TokenKind::RightBrace) {
            self.consume(TokenKind::RightBrace, "Expect '}' after dict literal.")?;
            self.emit(Instruction::BuildDict(0), heap);
            return Ok(());
        }
        self.parse_expression(heap)?;
        if self.match_token(TokenKind::Colon) {
            self.parse_expression(heap)?;
            let mut count: usize = 1;
            let ghost start = self.current;
            while self.match_token(TokenKind::Comma)
                invariant
                    self.inv(),
                    heap.wf(),
                    self.names_ok(heap.objs()),
                    ObjectHeap::only_adds(old(heap), heap),
                    Parser::steps(old(self), self),
                    Parser::balanced(old(self), self),
                    1 <= count <= self.current,
                decreases self.tokens@.len() - self.current,
            {
                if count >= 65535 {
                    self.record_error_at_current(ParseErrorKind::TooMuchItems);
                }
                self.parse_expression(heap)?;
                self.consume(TokenKind::Colon, "Expect ':' after key")?;
                self.parse_expression(heap)?;
                count = count + 1;
            }
            self.consume(TokenKind::RightBrace, "Expect '}' after dict literal.")?;
            self.emit(Instruction::BuildDict(count), heap);
        } else {
            let mut count: usize = 1;
            while self.match_token(TokenKind::Comma)
                invariant
                    self.inv(),
                    heap.wf(),
                    self.names_ok(heap.objs()),
                    ObjectHeap::only_adds(old(heap), heap),
                    Parser::steps(old(self), self),
                    Parser::balanced(old(self), self),
                    1 <= count <= self.current,
                decreases self.tokens@.len() - self.current,
            {
                if count >= 65535 {
                    self.record_error_at_current(ParseErrorKind::TooMuchItems);
                }
                self.parse_expression(heap)?;
                count = count + 1;
            }
            self.consume(TokenKind::RightBrace, "Expect '}' after set literal.")?;
            self.emit(Instruction::BuildSet(count), heap);
        }
        Ok(())
    }

    fn list_literal(&mut self, heap: &mut ObjectHeap) -> (r: Result<(), ParseError>)
        requires
            old(self).inv(),
            old(heap).wf(),
            old(self).names_ok(old(heap).objs()),
        ensures
            final(self).inv(),
            final(heap).wf(),
            final(self).names_ok(final(heap).objs()),
            ObjectHeap::only_adds(old(heap), final(heap)),
            Parser::steps(old(self), final(self)),
            r is Ok ==> Parser::balanced(old(self), final(self)),
            r is Ok ==> final(self).tokens@[final(self).current - 1].kind == TokenKind::RightBracket
                && (final(self).errors@.len() > old(self).errors@.len() || (final(self).cur().program@.len() > 0
                && final(self).cur().program@.last().0 is BuildList)),
        decreases old(self).tokens@.len() - old(self).current, 4nat,
    {
        if !self.check(TokenKind::RightBracket) {
            let mut count: usize = 0;
            let ghost start = self.current;
            loop
                invariant
                    self.inv(),
                    heap.wf(),
                    self.names_ok(heap.objs()),
                    ObjectHeap::only_adds(old(heap), heap),
                    Parser::steps(old(self), self),
                    Parser::balanced(old(self), self),
                    start == old(self).current,
                    count <= self.current - start,
                decreases self.tokens@.len() - self.current,
            {
                if count >= 65535 {
                    self.record_error_at_current(ParseErrorKind::TooMuchItems);
                }
                self.parse_expression(heap)?;
                count = count + 1;
                if !self.match_token(TokenKind::Comma) {
                    break;
                }
            }
            self.consume(TokenKind::RightBracket, "Expect ']' list literal.")?;
            self.emit(Instruction::BuildList(count), heap);
            Ok(())
        } else {
            self.consume(TokenKind::RightBracket, "Expect ']' after list literal.")?;
            self.emit(Instruction::BuildList(0), heap);
            Ok(())
        }
    }

    fn index(&mut self, can_assign: bool, heap: &mut ObjectHeap) -> (r: Result<(), ParseError>)
        requires
            old(self).inv(),
            old(heap).wf(),
            old(self).names_ok(old(heap).objs()),
        ensures
            final(self).inv(),
            final(heap).wf(),
            final(self).names_ok(final(heap).objs()),
            ObjectHeap::only_adds(old(heap), final(heap)),
            Parser::steps(old(self), final(self)),
            r is Ok ==> Parser::balanced(old(self), final(self)),
            r is Ok ==> final(self).cur().program@.len() > 0 && (final(self).cur().program@.last().0 is IndexGet
                || final(self).cur().program@.last().0 is IndexSet),
        decreases old(self).tokens@.len() - old(self).current, 4nat,
    {
        self.parse_expression(heap)?;
        self.consume(TokenKind::RightBracket, "Expect ']' index.")?;
        if can_assign && self.match_token(TokenKind::Equal) {
            self.parse_expression(heap)?;
            proof {
                assert(unit_ok(self.cur(), self.current));
            }
            self.emit(Instruction::IndexSet, heap);
        } else {
            proof {
                assert(unit_ok(self.cur(), self.current));
            }
            self.emit(Instruction::IndexGet, heap);
        }
        Ok(())
    }

    fn parse_argument_list(&mut self, heap: &mut ObjectHeap) -> (r: Result<(usize, usize, Vec<String>), ParseError>)
        requires
            old(self).inv(),
            old(heap).wf(),
            old(self).names_ok(old(heap).objs()),
        ensures
            final(self).inv(),
            final(heap).wf(),
            final(self).names_ok(final(heap).objs()),
            ObjectHeap::only_adds(old(heap), final(heap)),
            Parser::steps(old(self), final(self)),
            r is Ok ==> Parser::balanced(old(self), final(self)),
            r matches Ok((p, k, names)) ==> p + k <= final(self).current && names@.len() == k,
        decreases old(self).tokens@.len() - old(self).current, 3nat,
    {
        let mut pos_count: usize = 0;
        let mut kw_count: usize = 0;
        let mut kw_names: Vec<String> = Vec::new();
        let mut seen_keyword = false;
        if !self.check(TokenKind::RightParen) {
            loop
                invariant
                    self.inv(),
                    heap.wf(),
                    self.names_ok(heap.objs()),
                    ObjectHeap::only_adds(old(heap), heap),
                    Parser::steps(old(self), self),
                    Parser::balanced(old(self), self),
                    pos_count + kw_count <= self.current - old(self).current,
                    kw_names@.len() == kw_count,
                decreases self.tokens@.len() - self.current,
            {
                if pos_count + kw_count >= 255 {
                    self.record_error_at_current(ParseErrorKind::TooMuchArgument);
                }
                if self.check(TokenKind::Identifier) && self.peek_next().kind == TokenKind::Equal {
                    seen_keyword = true;
                    self.advance();
                    let name = self.previous().lexeme.clone();
                    self.advance();
                    if contains_name(&kw_names, &name) {
                        self.record_error_at_current(ParseErrorKind::DuplicateKeywordArg(name.clone()));
                    }
                    kw_names.push(name);
                    self.parse_expression(heap)?;
                    kw_count = kw_count + 1;
                } else {
                    if seen_keyword {
                        self.record_error_at_current(ParseErrorKind::PositionalAfterKeyword);
                    }
                    self.parse_expression(heap)?;
                    pos_count = pos_count + 1;
                }
                if !self.match_token(TokenKind::Comma) {
                    break;
                }
            }
        }
        self.consume(TokenKind::RightParen, "Expect ')' after arguments.")?;
        Ok((pos_count, kw_count, kw_names))
    }

    fn resolve_and_emit_variable(&mut self, name: String, can_assign: bool, heap: &mut ObjectHeap) -> (r: Result<(), ParseError>)
        requires
            old(self).inv(),
            old(heap).wf(),
            old(self).names_ok(old(heap).objs()),
            old(self).current > 0,
        ensures
            final(self).inv(),
            final(heap).wf(),
            final(self).names_ok(final(heap).objs()),
            ObjectHeap::only_adds(old(heap), final(heap)),
            Parser::steps(old(self), final(self)),
            r is Ok ==> Parser::balanced(old(self), final(self)),
            r is Ok ==> final(self).errors@.len() > old(self).errors@.len()
                || accesses(old(self), final(self).cur().program@, name@),
        decreases old(self).tokens@.len() - old(self).current, 3nat,
    {
        match self.resolve_local_or_upvalue(&name) {
            Some(LocalAccess::Local(slot)) => {
                if can_assign && self.match_token(TokenKind::Equal) {
                    self.parse_expression(heap)?;
                    self.emit(Instruction::SetLocal(slot), heap);
                } else {
                    self.emit(Instruction::GetLocal(slot), heap);
                }
            },
            Some(LocalAccess::Upvalue(slot)) => {
                if can_assign && self.match_token(TokenKind::Equal) {
                    self.parse_expression(heap)?;
                    self.emit(Instruction::SetUpvalue(slot), heap);
                } else {
                    self.emit(Instruction::GetUpvalue(slot), heap);
                }
            },
            None => {
                if can_assign && self.match_token(TokenKind::Equal) {
                    if !self.is_declared_global(&name) {
                        return Err(self.error_at_previous(ParseErrorKind::UndefinedVariable(name)));
                    }
                    self.parse_expression(heap)?;
                    self.emit(Instruction::SetGlobal(name), heap);
                } else {
                    self.emit(Instruction::GetGlobal(name), heap);
                }
            },
        }
        Ok(())
    }

}


impl Parser {
    /// Compile every declaration, then close the top-level function.  On
    /// any error the recorded errors are returned, in order.
    pub fn parse(self, heap: &mut ObjectHeap) -> (r: Result<ObjectHandle, Vec<ParseError>>)
        requires
            self.inv(),
            old(heap).wf(),
            self.names_ok(old(heap).objs()),
        ensures
            final(heap).wf(),
            ObjectHeap::only_adds(old(heap), final(heap)),
            r matches Ok(h) ==> final(heap).live(h) && final(heap).objs()[h.0 as int] matches Some(Object::Function(_)),
            r matches Ok(h) ==> compiled_function(final(heap).objs(), h),
            r matches Err(es) ==> es@.len() > 0,
            self.fresh_script() && (self.token_views()[0].kind == TokenKind::Break
                || self.token_views()[0].kind == TokenKind::Continue) ==> r is Err,
            self.fresh_script() ==> (arith_program(self.token_views(), 0) matches Some(code) ==> (code.len() + 2 <= 65536
                ==> (r matches Ok(h) && compiled_code(final(heap).objs(), h,
                code.push(ArithItem::Op(Instruction::Nil)).push(ArithItem::Op(Instruction::Return)))))),
    {
        let mut p = self;
        let ghost units0 = p.units@.len();
        let ghost errors0 = p.errors@.len();
        let ghost p0 = p;
        let ghost ts = tokens_view(p.tokens@);
        let ghost ok = p.fresh_script() && arith_program(ts, 0) is Some && (arith_program(ts, 0)->0).len() + 2 <= 65536;
        let ghost full = arith_program(ts, 0)->0;
        let ghost brk = p.fresh_script() && (ts[0].kind == TokenKind::Break || ts[0].kind == TokenKind::Continue);
        let ghost mut c: Seq<ArithItem> = Seq::empty();
        proof {
            if ok {
                assert(c + (arith_program(ts, p.current as int)->0) =~= full);
                assert(emits(p0.cur().program@, p.cur().program@, c, heap.objs()));
            }
        }
        while !p.at_end()
            invariant
                p.inv(),
                heap.wf(),
                p.names_ok(heap.objs()),
                ObjectHeap::only_adds(old(heap), heap),
                errors0 <= p.errors@.len(),
                p.errors@.len() == 0 ==> p.units@.len() == units0,
                units0 >= 1,
                ts == tokens_view(p.tokens@),
                ok ==> p0.fresh_script() && full.len() + 2 <= 65536,
                ok ==> arith_program(ts, p.current as int) is Some,
                ok ==> c + (arith_program(ts, p.current as int)->0) == full,
                ok ==> Parser::compiled_to(&p0, &p, heap.objs(), c, p.current as int),
                ok ==> p.cur().scope_depth == 0,
                brk ==> (p.current == 0 ==> p.loop_stack@.len() == 0) && (p.current > 0 ==> p.errors@.len() > 0),
                brk ==> ts[0].kind == TokenKind::Break || ts[0].kind == TokenKind::Continue,
            decreases p.tokens@.len() - p.current,
        {
            let ghost before = p;
            let ghost hb = *heap;
            let ghost i = p.current as int;
            let ghost is_var = ts[i].kind == TokenKind::Var;
            proof {
                if brk && i == 0 {
                    assert(p.tokens@[0].kind == ts[0].kind);
                }
                if ok {
                    assert(ts[i].kind != TokenKind::Eof);
                    assert(p.tokens@[i].kind == ts[i].kind);
                    if is_var {
                        let (c2, j) = var_decl(ts, i + 1)->0;
                        let rest = arith_program(ts, j)->0;
                        assert(arith_program(ts, i) == Some(c2 + rest));
                        assert(full =~= c + (c2 + rest));
                    } else {
                        let (c1, j) = arith_prec(ts, i, Prec::Assignment)->0;
                        let rest = arith_program(ts, j + 1)->0;
                        assert(arith_program(ts, i) == Some(c1.push(ArithItem::Op(Instruction::Pop)) + rest));
                        assert(full =~= c + (c1.push(ArithItem::Op(Instruction::Pop)) + rest));
                        assert(p.tokens@[j].kind == ts[j].kind);
                    }
                }
            }
            match p.parse_declaration(heap) {
                Ok(()) => {},
                Err(e) => p.synchronize(e),
            }
            proof {
                if ok {
                    if is_var {
                        let (c2, j) = var_decl(ts, i + 1)->0;
                        let rest = arith_program(ts, j)->0;
                        lemma_emits_trans(p0.cur().program@, before.cur().program@, p.cur().program@, c, c2, &hb, heap);
                        assert((c + c2) + rest =~= c + (c2 + rest));
                        c = c + c2;
                    } else {
                        let (c1, j) = arith_prec(ts, i, Prec::Assignment)->0;
                        let rest = arith_program(ts, j + 1)->0;
                        let c2 = c1.push(ArithItem::Op(Instruction::Pop));
                        lemma_emits_trans(p0.cur().program@, before.cur().program@, p.cur().program@, c, c2, &hb, heap);
                        assert((c + c2) + rest =~= c + (c2 + rest));
                        c = c + c2;
                    }
                }
            }
        }
        proof {
            if brk {
                assert(p.tokens@[0].kind == ts[0].kind);
                assert(p.current > 0);
            }
            if ok {
                assert(arith_program(ts, p.current as int) == Some(Seq::<ArithItem>::empty()));
                assert(c =~= c + Seq::<ArithItem>::empty());
                reveal_strlit("__init__");
                assert(p.cur().name == p0.cur().name);
                assert(p.cur().name@.len() == 0);
                assert("__init__"@.len() == 8);
                assert(p.cur().name@ != "__init__"@);
            }
        }
        if p.errors.len() > 0 {
            return Err(p.errors);
        }
        let ghost pre_epi = p;
        p.emit_epilogue(heap);
        if p.errors.len() > 0 {
            return Err(p.errors);
        }
        let ghost before = p;
        proof {
            if ok {
                let n = pre_epi.cur().chunk.constants@.len() as int;
                lemma_emits_push(p0.cur().program@, pre_epi.cur().program@, c, heap.objs(), Instruction::Nil, n);
                lemma_emits_push(p0.cur().program@, pre_epi.cur().program@.push((Instruction::Nil, n)),
                    c.push(ArithItem::Op(Instruction::Nil)), heap.objs(), Instruction::Return, n);
                assert(p0.cur().program@ =~= Seq::<(Instruction, int)>::empty());
            }
        }
        match p.units.pop() {
            Some(unit) => {
                let ghost h0 = *heap;
                let ghost prog = unit.program@;
                let ghost chunk = unit.chunk;
                proof {
                    assert(before.units@[before.units@.len() - 1] == unit);
                    assert(unit_ok(unit, before.current));
                    assert(names_hold(prog, chunk.constants@, h0.objs()));
                }
                let f = heap.alloc_function(unit.name, unit.arity, unit.required_arity, unit.param_names, unit.defaults, unit.chunk);
                proof {
                    before.lemma_function_compiled(prog, chunk, &h0, heap);
                    if ok {
                        let code = full.push(ArithItem::Op(Instruction::Nil)).push(ArithItem::Op(Instruction::Return));
                        assert(c == full);
                        assert(emits(Seq::empty(), prog, code, h0.objs()));
                        assert(emits(prog, prog, Seq::<ArithItem>::empty(), heap.objs()));
                        lemma_emits_trans(Seq::empty(), prog, prog, code, Seq::<ArithItem>::empty(), &h0, heap);
                        assert(code + Seq::<ArithItem>::empty() =~= code);
                        assert(laid_out(prog, chunk.codes@, chunk.constants@.len() as int)
                            && decodes_as(chunk, heap.objs(), prog) && emits(Seq::empty(), prog, code, heap.objs()));
                    }
                }
                Ok(f)
            },
            None => Err(p.errors),
        }
    }
}

/// Why a source text did not compile.
#[derive(Debug)]
pub enum CompileError {
    Scan(ScanError),
    Parse(Vec<ParseError>),
}

/// Scan and compile `source` into a function object of `heap`, the
/// top-level script.  The code of a compiled function is its instructions
/// one after the other, and decoding it from the start of any of them reads
/// that instruction back.  A program of expression statements over integer
/// literals and operators, and of global variable declarations initialized
/// by such expressions or by nothing, compiles to each expression's code in
/// postfix order, with `Pop` after each statement and `DefineGlobal` after
/// each declaration's value (`Nil` where it has none), then `Nil` and
/// `Return`.  A program that starts with `break` or `continue`, outside any
/// loop, does not compile.
pub fn compile(source: &str, heap: &mut ObjectHeap) -> (r: Result<ObjectHandle, CompileError>)
    requires
        source@.len() < isize::MAX,
        old(heap).wf(),
    ensures
        final(heap).wf(),
        ObjectHeap::only_adds(old(heap), final(heap)),
        match tokenize(source@) {
            Err(e) => r matches Err(CompileError::Scan(e2)) && e2 == e && *final(heap) == *old(heap),
            Ok(_) => !(r is Err && r->Err_0 is Scan),
        },
        r matches Err(CompileError::Parse(es)) ==> es@.len() > 0,
        r matches Ok(h) ==> final(heap).live(h) && final(heap).objs()[h.0 as int] matches Some(Object::Function(_)),
        r matches Ok(h) ==> compiled_function(final(heap).objs(), h),
        tokenize(source@) matches Ok(ts) && ts.len() > 0 && (ts[0].kind == TokenKind::Break
            || ts[0].kind == TokenKind::Continue) ==> r is Err,
        tokenize(source@) matches Ok(ts) ==> (arith_program(ts, 0) matches Some(code) ==> (code.len() + 2 <= 65536
            ==> (r matches Ok(h) && compiled_code(final(heap).objs(), h,
            code.push(ArithItem::Op(Instruction::Nil)).push(ArithItem::Op(Instruction::Return)))))),
{
    let tokens = match scan(source) {
        Ok(t) => t,
        Err(e) => {
            proof {
                lemma_only_adds_refl(heap);
            }
            return Err(CompileError::Scan(e));
        },
    };
    let parser = Parser::new(tokens);
    match parser.parse(heap) {
        Ok(h) => Ok(h),
        Err(es) => Err(CompileError::Parse(es)),
    }
}

} // verus!
