use vstd::prelude::*;

use crate::builtin::{decimal_chars, push_decimal, push_text};
use crate::parse::ParseErrorKind;
use crate::scan::{ScanError, string_from_chars};

verus! {

/// The message of a scanner error.
pub open spec fn scan_error_text(e: ScanError) -> Seq<char> {
    match e {
        ScanError::UnexpectEnd => "unexpect end of source"@,
        ScanError::UnterminatedString => "unterminated string"@,
    }
}

impl ScanError {
    /// The error message.
    pub fn message(&self) -> (s: String)
        ensures
            s@ == scan_error_text(*self),
    {
        let mut out: Vec<char> = Vec::new();
        match self {
            ScanError::UnexpectEnd => push_text(&mut out, "unexpect end of source"),
            ScanError::UnterminatedString => push_text(&mut out, "unterminated string"),
        }
        proof {
            assert(out@ =~= scan_error_text(*self));
        }
        string_from_chars(out)
    }
}

/// The message of a parse error.
pub open spec fn parse_error_text(e: ParseErrorKind) -> Seq<char> {
    match e {
        ParseErrorKind::InvalidFloat => "invalid float literal"@,
        ParseErrorKind::InvalidInteger => "invalid integer literal"@,
        ParseErrorKind::ExpectedExpression => "expected expression"@,
        ParseErrorKind::ExpectedToken(t) => "expected token '"@ + t@ + "'"@,
        ParseErrorKind::InvalidAssignmentTarget => "invalid assignment target"@,
        ParseErrorKind::VariableRedefine(name) => "Already a variable "@ + name@ + " in this scope."@,
        ParseErrorKind::TooMuchCodeToJumpOver(n) => "Too much code "@ + decimal_chars(n as nat) + " to jump over."@,
        ParseErrorKind::TooMuchParameter => "Can't have more than 255 parameters."@,
        ParseErrorKind::TooMuchArgument => "Can't have more than 255 arguments."@,
        ParseErrorKind::TooMuchItems => "Can't have more than 255 items."@,
        ParseErrorKind::ReturnInTop => "Can't return from top-level code."@,
        ParseErrorKind::BreakOutsideLoop => "'break' outside of loop"@,
        ParseErrorKind::ContinueOutsideLoop => "'continue' outside of loop"@,
        ParseErrorKind::InvalidEscape(c) => "invalid escape sequence '\\"@ + seq![c] + "'"@,
        ParseErrorKind::RequiredAfterOptional => "required parameter after optional parameter"@,
        ParseErrorKind::PositionalAfterKeyword => "positional argument after keyword argument"@,
        ParseErrorKind::DuplicateKeywordArg(name) => "duplicate keyword argument '"@ + name@ + "'"@,
        ParseErrorKind::InvalidDefaultValue =>
            "invalid default value \u{2014} only constant literals (numbers, strings, bools, nil) are supported"@,
        ParseErrorKind::UndefinedVariable(name) =>
            "undefined variable '"@ + name@ + "' \u{2014} use 'var' to declare it first"@,
        ParseErrorKind::OperandTooLarge => "operand too large for the bytecode"@,
    }
}

impl ParseErrorKind {
    /// The error message.
    pub fn message(&self) -> (s: String)
        ensures
            s@ == parse_error_text(*self),
    {
        let mut out: Vec<char> = Vec::new();
        match self {
            ParseErrorKind::InvalidFloat => push_text(&mut out, "invalid float literal"),
            ParseErrorKind::InvalidInteger => push_text(&mut out, "invalid integer literal"),
            ParseErrorKind::ExpectedExpression => push_text(&mut out, "expected expression"),
            ParseErrorKind::ExpectedToken(t) => {
                push_text(&mut out, "expected token '");
                push_text(&mut out, t);
                push_text(&mut out, "'");
            },
            ParseErrorKind::InvalidAssignmentTarget => push_text(&mut out, "invalid assignment target"),
            ParseErrorKind::VariableRedefine(name) => {
                push_text(&mut out, "Already a variable ");
                push_text(&mut out, name.as_str());
                push_text(&mut out, " in this scope.");
            },
            ParseErrorKind::TooMuchCodeToJumpOver(n) => {
                push_text(&mut out, "Too much code ");
                push_decimal(&mut out, *n);
                push_text(&mut out, " to jump over.");
            },
            ParseErrorKind::TooMuchParameter => push_text(&mut out, "Can't have more than 255 parameters."),
            ParseErrorKind::TooMuchArgument => push_text(&mut out, "Can't have more than 255 arguments."),
            ParseErrorKind::TooMuchItems => push_text(&mut out, "Can't have more than 255 items."),
            ParseErrorKind::ReturnInTop => push_text(&mut out, "Can't return from top-level code."),
            ParseErrorKind::BreakOutsideLoop => push_text(&mut out, "'break' outside of loop"),
            ParseErrorKind::ContinueOutsideLoop => push_text(&mut out, "'continue' outside of loop"),
            ParseErrorKind::InvalidEscape(c) => {
                push_text(&mut out, "invalid escape sequence '\\");
                out.push(*c);
                push_text(&mut out, "'");
            },
            ParseErrorKind::RequiredAfterOptional => push_text(&mut out, "required parameter after optional parameter"),
            ParseErrorKind::PositionalAfterKeyword => push_text(&mut out, "positional argument after keyword argument"),
            ParseErrorKind::DuplicateKeywordArg(name) => {
                push_text(&mut out, "duplicate keyword argument '");
                push_text(&mut out, name.as_str());
                push_text(&mut out, "'");
            },
            ParseErrorKind::InvalidDefaultValue => push_text(
                &mut out,
                "invalid default value \u{2014} only constant literals (numbers, strings, bools, nil) are supported",
            ),
            ParseErrorKind::UndefinedVariable(name) => {
                push_text(&mut out, "undefined variable '");
                push_text(&mut out, name.as_str());
                push_text(&mut out, "' \u{2014} use 'var' to declare it first");
            },
            ParseErrorKind::OperandTooLarge => push_text(&mut out, "operand too large for the bytecode"),
        }
        proof {
            assert(out@ =~= parse_error_text(*self));
        }
        string_from_chars(out)
    }
}

} // verus!
