//! Labels for tokens as they appear in IR attributes: the token's variant name, with its
//! payload in parentheses where it carries one (the form of the derived `Debug`).

use vstd::prelude::*;
use crate::lexer::{Tok, TokV};
use crate::text::{decimal_i64, push_str, string_from};

use crate::decimal::{float_debug, float_debug_s};

verus! {

/// `<str as Debug>::fmt`: the quoted, escaped form of a string.
pub uninterp spec fn str_debug(s: Seq<char>) -> Seq<char>;

/// `format!("{:?}", s)` for a `&str`. Claimed: the result is a function of the text alone.
#[verifier::external_body]
fn debug_str(s: &str) -> (r: String)
    ensures
        r@ == str_debug(s@),
{
    format!("{:?}", s)
}

/// The name of a token without payload.
pub open spec fn unit_name(t: TokV) -> Seq<char> {
    match t {
        TokV::Int(_) => "Int"@,
        TokV::Float(_) => "Float"@,
        TokV::Str(_) => "Str"@,
        TokV::Ident(_) => "Ident"@,
        TokV::Let => "Let"@,
        TokV::Var => "Var"@,
        TokV::Fn => "Fn"@,
        TokV::If => "If"@,
        TokV::Else => "Else"@,
        TokV::While => "While"@,
        TokV::For => "For"@,
        TokV::In => "In"@,
        TokV::Return => "Return"@,
        TokV::True => "True"@,
        TokV::False => "False"@,
        TokV::Nil => "Nil"@,
        TokV::Table => "Table"@,
        TokV::Insert => "Insert"@,
        TokV::From => "From"@,
        TokV::Where => "Where"@,
        TokV::Select => "Select"@,
        TokV::LParen => "LParen"@,
        TokV::RParen => "RParen"@,
        TokV::LBrace => "LBrace"@,
        TokV::RBrace => "RBrace"@,
        TokV::LBracket => "LBracket"@,
        TokV::RBracket => "RBracket"@,
        TokV::Comma => "Comma"@,
        TokV::Colon => "Colon"@,
        TokV::Arrow => "Arrow"@,
        TokV::Pipe => "Pipe"@,
        TokV::Plus => "Plus"@,
        TokV::Minus => "Minus"@,
        TokV::Star => "Star"@,
        TokV::Slash => "Slash"@,
        TokV::Percent => "Percent"@,
        TokV::Eq => "Eq"@,
        TokV::EqEq => "EqEq"@,
        TokV::NotEq => "NotEq"@,
        TokV::Lt => "Lt"@,
        TokV::Le => "Le"@,
        TokV::Gt => "Gt"@,
        TokV::Ge => "Ge"@,
        TokV::Bang => "Bang"@,
        TokV::AndAnd => "AndAnd"@,
        TokV::OrOr => "OrOr"@,
        TokV::Dot => "Dot"@,
        TokV::Eof => "Eof"@,
    }
}

/// A token's label: its name, followed by its payload in parentheses where it has one.
pub open spec fn tok_label(t: TokV) -> Seq<char> {
    match t {
        TokV::Int(n) => "Int("@ + crate::text::dec_int(n as int) + ")"@,
        TokV::Float(s) => "Float("@ + float_debug_s(s) + ")"@,
        TokV::Str(s) => "Str("@ + str_debug(s) + ")"@,
        TokV::Ident(s) => "Ident("@ + str_debug(s) + ")"@,
        _ => unit_name(t),
    }
}

fn unit_str(t: &Tok) -> (s: &'static str)
    ensures
        s@ == unit_name(t@),
{
    match t {
        Tok::Int(_) => "Int",
        Tok::Float(_) => "Float",
        Tok::Str(_) => "Str",
        Tok::Ident(_) => "Ident",
            Tok::Let => "Let",
            Tok::Var => "Var",
            Tok::Fn => "Fn",
            Tok::If => "If",
            Tok::Else => "Else",
            Tok::While => "While",
            Tok::For => "For",
            Tok::In => "In",
            Tok::Return => "Return",
            Tok::True => "True",
            Tok::False => "False",
            Tok::Nil => "Nil",
            Tok::Table => "Table",
            Tok::Insert => "Insert",
            Tok::From => "From",
            Tok::Where => "Where",
            Tok::Select => "Select",
            Tok::LParen => "LParen",
            Tok::RParen => "RParen",
            Tok::LBrace => "LBrace",
            Tok::RBrace => "RBrace",
            Tok::LBracket => "LBracket",
            Tok::RBracket => "RBracket",
            Tok::Comma => "Comma",
            Tok::Colon => "Colon",
            Tok::Arrow => "Arrow",
            Tok::Pipe => "Pipe",
            Tok::Plus => "Plus",
            Tok::Minus => "Minus",
            Tok::Star => "Star",
            Tok::Slash => "Slash",
            Tok::Percent => "Percent",
            Tok::Eq => "Eq",
            Tok::EqEq => "EqEq",
            Tok::NotEq => "NotEq",
            Tok::Lt => "Lt",
            Tok::Le => "Le",
            Tok::Gt => "Gt",
            Tok::Ge => "Ge",
            Tok::Bang => "Bang",
            Tok::AndAnd => "AndAnd",
            Tok::OrOr => "OrOr",
            Tok::Dot => "Dot",
            Tok::Eof => "Eof",
    }
}

/// The label of a token.
pub fn tok_label_of(t: &Tok) -> (s: String)
    ensures
        s@ == tok_label(t@),
{
    match t {
        Tok::Int(n) => {
            let mut s = string_from("Int(");
            let d = decimal_i64(*n);
            push_str(&mut s, d.as_str());
            push_str(&mut s, ")");
            s
        },
        Tok::Float(x) => {
            let mut s = string_from("Float(");
            let d = float_debug(x.as_str());
            push_str(&mut s, d.as_str());
            push_str(&mut s, ")");
            s
        },
        Tok::Str(x) => {
            let mut s = string_from("Str(");
            let d = debug_str(x.as_str());
            push_str(&mut s, d.as_str());
            push_str(&mut s, ")");
            s
        },
        Tok::Ident(x) => {
            let mut s = string_from("Ident(");
            let d = debug_str(x.as_str());
            push_str(&mut s, d.as_str());
            push_str(&mut s, ")");
            s
        },
        _ => string_from(unit_str(t)),
    }
}

} // verus!
