//! The text of lexing and parsing errors, as the command line and the server report them.

use vstd::prelude::*;
use crate::lexer::LexError;
use crate::parser::{ParseError, ParseErrorV};
use crate::text::{dec_digits, push_char, push_decimal, push_str, string_from};
use crate::toklabel::{tok_label, tok_label_of};

verus! {

/// `line <n>: ` before a message.
pub open spec fn line_prefix(line: usize) -> Seq<char> {
    "line "@ + dec_digits(line as nat) + ": "@
}

pub open spec fn lex_error_text(e: LexError) -> Seq<char> {
    match e {
        LexError::UnexpectedPipe(l) => line_prefix(l) + "unexpected '|'"@,
        LexError::UnterminatedString(l) => line_prefix(l) + "unterminated string"@,
        LexError::BadEscape(l, b) => line_prefix(l) + "bad escape \\"@ + seq![b as char],
        LexError::IntTooLarge(l) => line_prefix(l) + "number too large to fit in target type"@,
        LexError::UnexpectedChar(l, b) => line_prefix(l) + "unexpected character '"@ + seq![
            b as char,
        ] + "'"@,
    }
}

pub open spec fn parse_error_text(e: ParseErrorV) -> Seq<char> {
    match e {
        ParseErrorV::Expected { line, expected, found } => line_prefix(line) + "expected "@
            + tok_label(expected) + ", found "@ + tok_label(found),
        ParseErrorV::ExpectedIdent { line, found } => line_prefix(line) + "expected identifier, found "@
            + tok_label(found),
        ParseErrorV::UnexpectedToken { line, found } => line_prefix(line) + "unexpected token "@
            + tok_label(found),
    }
}

fn with_line(line: usize) -> (s: String)
    ensures
        s@ == line_prefix(line),
{
    let mut s = string_from("line ");
    push_decimal(&mut s, line as u64);
    push_str(&mut s, ": ");
    s
}

impl LexError {
    /// The error's message.
    pub fn message(&self) -> (s: String)
        ensures
            s@ == lex_error_text(*self),
    {
        match self {
            LexError::UnexpectedPipe(l) => {
                let mut s = with_line(*l);
                push_str(&mut s, "unexpected '|'");
                s
            },
            LexError::UnterminatedString(l) => {
                let mut s = with_line(*l);
                push_str(&mut s, "unterminated string");
                s
            },
            LexError::BadEscape(l, b) => {
                let mut s = with_line(*l);
                push_str(&mut s, "bad escape \\");
                push_char(&mut s, *b as char);
                s
            },
            LexError::IntTooLarge(l) => {
                let mut s = with_line(*l);
                push_str(&mut s, "number too large to fit in target type");
                s
            },
            LexError::UnexpectedChar(l, b) => {
                let mut s = with_line(*l);
                push_str(&mut s, "unexpected character '");
                push_char(&mut s, *b as char);
                push_str(&mut s, "'");
                s
            },
        }
    }
}

impl ParseError {
    /// The error's message.
    pub fn message(&self) -> (s: String)
        ensures
            s@ == parse_error_text(self@),
    {
        match self {
            ParseError::Expected { line, expected, found } => {
                let mut s = with_line(*line);
                push_str(&mut s, "expected ");
                push_str(&mut s, tok_label_of(expected).as_str());
                push_str(&mut s, ", found ");
                push_str(&mut s, tok_label_of(found).as_str());
                s
            },
            ParseError::ExpectedIdent { line, found } => {
                let mut s = with_line(*line);
                push_str(&mut s, "expected identifier, found ");
                push_str(&mut s, tok_label_of(found).as_str());
                s
            },
            ParseError::UnexpectedToken { line, found } => {
                let mut s = with_line(*line);
                push_str(&mut s, "unexpected token ");
                push_str(&mut s, tok_label_of(found).as_str());
                s
            },
        }
    }
}

} // verus!
