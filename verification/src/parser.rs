//! Parser for CodeIO v0: Pratt expression parsing over statement-list blocks.
//!
//! The grammar is specified by the `sp_*` functions over the token sequence; each
//! gives the parse (or error) starting at a position and the position where it stops.

use vstd::prelude::*;
use crate::lexer::{Tok, TokV, toks_view};

verus! {

#[derive(Debug)]
pub enum Expr {
    Int(i64),
    Float(String),
    Str(String),
    Bool(bool),
    Nil,
    Ident(String),
    Unary(Tok, Box<Expr>),
    Binary(Tok, Box<Expr>, Box<Expr>),
    Call(Box<Expr>, Vec<Expr>),
    If(Box<Expr>, Vec<Stmt>, Option<Vec<Stmt>>),
    Block(Vec<Stmt>),
    List(Vec<Expr>),
    Record(Vec<(String, Expr)>),
    Field(Box<Expr>, String),
    Index(Box<Expr>, Box<Expr>),
    Query { var: String, source: String, filter: Option<Box<Expr>>, select: Option<Box<Expr>> },
}

#[derive(Debug)]
pub enum Stmt {
    Let(String, Expr),
    Var(String, Expr),
    Assign(String, Expr),
    Fn(String, Vec<String>, Vec<Stmt>),
    While(Expr, Vec<Stmt>),
    For(String, Expr, Vec<Stmt>),
    Return(Option<Expr>),
    Table(String, Vec<(String, String)>),
    Insert(String, Expr),
    Expr(Expr),
}

/// The mathematical value of an expression.
pub enum ExprV {
    Int(i64),
    Float(Seq<char>),
    Str(Seq<char>),
    Bool(bool),
    Nil,
    Ident(Seq<char>),
    Unary(TokV, Box<ExprV>),
    Binary(TokV, Box<ExprV>, Box<ExprV>),
    Call(Box<ExprV>, Seq<ExprV>),
    If(Box<ExprV>, Seq<StmtV>, Option<Seq<StmtV>>),
    Block(Seq<StmtV>),
    List(Seq<ExprV>),
    Record(Seq<(Seq<char>, ExprV)>),
    Field(Box<ExprV>, Seq<char>),
    Index(Box<ExprV>, Box<ExprV>),
    Query {
        var: Seq<char>,
        source: Seq<char>,
        filter: Option<Box<ExprV>>,
        select: Option<Box<ExprV>>,
    },
}

/// The mathematical value of a statement.
pub enum StmtV {
    Let(Seq<char>, ExprV),
    Var(Seq<char>, ExprV),
    Assign(Seq<char>, ExprV),
    Fn(Seq<char>, Seq<Seq<char>>, Seq<StmtV>),
    While(ExprV, Seq<StmtV>),
    For(Seq<char>, ExprV, Seq<StmtV>),
    Return(Option<ExprV>),
    Table(Seq<char>, Seq<(Seq<char>, Seq<char>)>),
    Insert(Seq<char>, ExprV),
    Expr(ExprV),
}

pub open spec fn strings_v(s: Seq<String>) -> Seq<Seq<char>> {
    s.map_values(|x: String| x@)
}

pub open spec fn pairs_v(s: Seq<(String, String)>) -> Seq<(Seq<char>, Seq<char>)> {
    s.map_values(|x: (String, String)| (x.0@, x.1@))
}

pub open spec fn expr_v(e: Expr) -> ExprV
    decreases e,
{
    match e {
        Expr::Int(n) => ExprV::Int(n),
        Expr::Float(s) => ExprV::Float(s@),
        Expr::Str(s) => ExprV::Str(s@),
        Expr::Bool(b) => ExprV::Bool(b),
        Expr::Nil => ExprV::Nil,
        Expr::Ident(s) => ExprV::Ident(s@),
        Expr::Unary(t, a) => ExprV::Unary(t@, Box::new(expr_v(*a))),
        Expr::Binary(t, a, b) => ExprV::Binary(t@, Box::new(expr_v(*a)), Box::new(expr_v(*b))),
        Expr::Call(f, args) => ExprV::Call(Box::new(expr_v(*f)), exprs_v(args@)),
        Expr::If(c, t, e) => ExprV::If(
            Box::new(expr_v(*c)),
            stmts_v(t@),
            match e {
                Some(v) => Some(stmts_v(v@)),
                None => None,
            },
        ),
        Expr::Block(b) => ExprV::Block(stmts_v(b@)),
        Expr::List(items) => ExprV::List(exprs_v(items@)),
        Expr::Record(fields) => ExprV::Record(fields_v(fields@)),
        Expr::Field(t, n) => ExprV::Field(Box::new(expr_v(*t)), n@),
        Expr::Index(t, i) => ExprV::Index(Box::new(expr_v(*t)), Box::new(expr_v(*i))),
        Expr::Query { var, source, filter, select } => ExprV::Query {
            var: var@,
            source: source@,
            filter: match filter {
                Some(f) => Some(Box::new(expr_v(*f))),
                None => None,
            },
            select: match select {
                Some(x) => Some(Box::new(expr_v(*x))),
                None => None,
            },
        },
    }
}

pub open spec fn exprs_v(s: Seq<Expr>) -> Seq<ExprV>
    decreases s,
{
    Seq::new(s.len(), |i: int| if 0 <= i < s.len() { expr_v(s[i]) } else { ExprV::Nil })
}

pub open spec fn fields_v(s: Seq<(String, Expr)>) -> Seq<(Seq<char>, ExprV)>
    decreases s,
{
    Seq::new(
        s.len(),
        |i: int|
            if 0 <= i < s.len() {
                (s[i].0@, expr_v(s[i].1))
            } else {
                (Seq::empty(), ExprV::Nil)
            },
    )
}

pub open spec fn stmt_v(st: Stmt) -> StmtV
    decreases st,
{
    match st {
        Stmt::Let(n, e) => StmtV::Let(n@, expr_v(e)),
        Stmt::Var(n, e) => StmtV::Var(n@, expr_v(e)),
        Stmt::Assign(n, e) => StmtV::Assign(n@, expr_v(e)),
        Stmt::Fn(n, ps, body) => StmtV::Fn(n@, strings_v(ps@), stmts_v(body@)),
        Stmt::While(c, body) => StmtV::While(expr_v(c), stmts_v(body@)),
        Stmt::For(v, it, body) => StmtV::For(v@, expr_v(it), stmts_v(body@)),
        Stmt::Return(e) => StmtV::Return(
            match e {
                Some(x) => Some(expr_v(x)),
                None => None,
            },
        ),
        Stmt::Table(n, cols) => StmtV::Table(n@, pairs_v(cols@)),
        Stmt::Insert(n, e) => StmtV::Insert(n@, expr_v(e)),
        Stmt::Expr(e) => StmtV::Expr(expr_v(e)),
    }
}

pub open spec fn stmts_v(s: Seq<Stmt>) -> Seq<StmtV>
    decreases s,
{
    Seq::new(s.len(), |i: int| if 0 <= i < s.len() { stmt_v(s[i]) } else { StmtV::Expr(ExprV::Nil) })
}

impl View for Expr {
    type V = ExprV;

    open spec fn view(&self) -> ExprV {
        expr_v(*self)
    }
}

impl View for Stmt {
    type V = StmtV;

    open spec fn view(&self) -> StmtV {
        stmt_v(*self)
    }
}

/// A parse error with the line it was reported on.
#[derive(Debug)]
pub enum ParseError {
    /// A specific token was required.
    Expected { line: usize, expected: Tok, found: Tok },
    /// An identifier was required.
    ExpectedIdent { line: usize, found: Tok },
    /// No expression can start with this token.
    UnexpectedToken { line: usize, found: Tok },
}

pub enum ParseErrorV {
    Expected { line: usize, expected: TokV, found: TokV },
    ExpectedIdent { line: usize, found: TokV },
    UnexpectedToken { line: usize, found: TokV },
}

impl View for ParseError {
    type V = ParseErrorV;

    open spec fn view(&self) -> ParseErrorV {
        match self {
            ParseError::Expected { line, expected, found } => ParseErrorV::Expected {
                line: *line,
                expected: expected@,
                found: found@,
            },
            ParseError::ExpectedIdent { line, found } => ParseErrorV::ExpectedIdent {
                line: *line,
                found: found@,
            },
            ParseError::UnexpectedToken { line, found } => ParseErrorV::UnexpectedToken {
                line: *line,
                found: found@,
            },
        }
    }
}

// ---------------------------------------------------------------------------
// The grammar
// ---------------------------------------------------------------------------

pub type Toks = Seq<(TokV, usize)>;

pub open spec fn tok_at(t: Toks, p: int) -> TokV {
    t[p].0
}

pub open spec fn line_at(t: Toks, p: int) -> usize {
    t[p].1
}

/// The position after reading the token at `p`; the last token is never passed.
pub open spec fn next_pos(t: Toks, p: int) -> int {
    if p < t.len() - 1 { p + 1 } else { p }
}

/// Left and right binding power of an infix operator.
pub open spec fn infix_bp(t: TokV) -> Option<(u8, u8)> {
    match t {
        TokV::OrOr => Some((1u8, 2u8)),
        TokV::AndAnd => Some((2u8, 3u8)),
        TokV::EqEq | TokV::NotEq => Some((3u8, 4u8)),
        TokV::Lt | TokV::Le | TokV::Gt | TokV::Ge => Some((4u8, 5u8)),
        TokV::Pipe => Some((5u8, 6u8)),
        TokV::Plus | TokV::Minus => Some((6u8, 7u8)),
        TokV::Star | TokV::Slash | TokV::Percent => Some((7u8, 8u8)),
        _ => None,
    }
}

/// Requires token `k` at `p`.
pub open spec fn sp_expect(t: Toks, p: int, k: TokV) -> (Result<(), ParseErrorV>, int) {
    if tok_at(t, p) == k {
        (Ok(()), next_pos(t, p))
    } else {
        (Err(ParseErrorV::Expected { line: line_at(t, p), expected: k, found: tok_at(t, p) }), p)
    }
}

/// Requires an identifier at `p`.
pub open spec fn sp_ident(t: Toks, p: int) -> (Result<Seq<char>, ParseErrorV>, int) {
    match tok_at(t, p) {
        TokV::Ident(s) => (Ok(s), next_pos(t, p)),
        other => (Err(ParseErrorV::ExpectedIdent { line: line_at(t, p), found: other }), p),
    }
}

/// `ident (':' ident)?` — a name with an optional, ignored type annotation.
pub open spec fn sp_annotated(t: Toks, p: int) -> (Result<Seq<char>, ParseErrorV>, int) {
    let (r, p1) = sp_ident(t, p);
    match r {
        Err(x) => (Err(x), p1),
        Ok(n) => {
            if tok_at(t, p1) == TokV::Colon {
                let (r2, p2) = sp_ident(t, next_pos(t, p1));
                match r2 {
                    Err(x) => (Err(x), p2),
                    Ok(_) => (Ok(n), p2),
                }
            } else {
                (Ok(n), p1)
            }
        },
    }
}

/// Function parameters up to (not including) `)`, each optionally annotated and
/// optionally followed by a comma.
pub open spec fn sp_params(t: Toks, p: int, acc: Seq<Seq<char>>) -> (
    Result<Seq<Seq<char>>, ParseErrorV>,
    int,
)
    decreases left(t, p),
{
    if !(0 <= p < t.len()) || tok_at(t, p) == TokV::RParen {
        (Ok(acc), p)
    } else {
        let (r, p1) = sp_annotated(t, p);
        match r {
            Err(x) => (Err(x), p1),
            Ok(n) => {
                let p2 = if tok_at(t, p1) == TokV::Comma { next_pos(t, p1) } else { p1 };
                if p < p2 {
                    sp_params(t, p2, acc.push(n))
                } else {
                    (Ok(acc.push(n)), p2)
                }
            },
        }
    }
}

/// A table column: `name : type`.
pub open spec fn sp_column(t: Toks, p: int) -> (Result<(Seq<char>, Seq<char>), ParseErrorV>, int) {
    let (rn, p1) = sp_ident(t, p);
    match rn {
        Err(x) => (Err(x), p1),
        Ok(n) => {
            let (rc, p2) = sp_expect(t, p1, TokV::Colon);
            match rc {
                Err(x) => (Err(x), p2),
                Ok(_) => {
                    let (rt, p3) = sp_ident(t, p2);
                    match rt {
                        Err(x) => (Err(x), p3),
                        Ok(ty) => (Ok((n, ty)), p3),
                    }
                },
            }
        },
    }
}

/// Table columns up to (not including) `}`, each optionally followed by a comma.
pub open spec fn sp_columns(t: Toks, p: int, acc: Seq<(Seq<char>, Seq<char>)>) -> (
    Result<Seq<(Seq<char>, Seq<char>)>, ParseErrorV>,
    int,
)
    decreases left(t, p),
{
    if !(0 <= p < t.len()) || tok_at(t, p) == TokV::RBrace {
        (Ok(acc), p)
    } else {
        let (r, p1) = sp_column(t, p);
        match r {
            Err(x) => (Err(x), p1),
            Ok(c) => {
                let p2 = if tok_at(t, p1) == TokV::Comma { next_pos(t, p1) } else { p1 };
                if p < p2 {
                    sp_columns(t, p2, acc.push(c))
                } else {
                    (Ok(acc.push(c)), p2)
                }
            },
        }
    }
}

/// `name ( params ) (-> type)?` after `fn`; gives the name and the parameter names.
pub open spec fn sp_fn_header(t: Toks, p: int) -> (
    Result<(Seq<char>, Seq<Seq<char>>), ParseErrorV>,
    int,
) {
    let (rn, p1) = sp_ident(t, p);
    match rn {
        Err(x) => (Err(x), p1),
        Ok(name) => {
            let (rl, p2) = sp_expect(t, p1, TokV::LParen);
            match rl {
                Err(x) => (Err(x), p2),
                Ok(_) => {
                    let (rp, p3) = sp_params(t, p2, Seq::empty());
                    match rp {
                        Err(x) => (Err(x), p3),
                        Ok(params) => {
                            let (rr, p4) = sp_expect(t, p3, TokV::RParen);
                            match rr {
                                Err(x) => (Err(x), p4),
                                Ok(_) => {
                                    if tok_at(t, p4) == TokV::Arrow {
                                        let (ri, p5) = sp_ident(t, next_pos(t, p4));
                                        match ri {
                                            Err(x) => (Err(x), p5),
                                            Ok(_) => (Ok((name, params)), p5),
                                        }
                                    } else {
                                        (Ok((name, params)), p4)
                                    }
                                },
                            }
                        },
                    }
                },
            }
        },
    }
}

/// The result of `a |> rhs`: `f(a, args..)` when `rhs` is `f(args..)`, else `rhs(a)`.
pub open spec fn pipe_v(lhs: ExprV, rhs: ExprV) -> ExprV {
    match rhs {
        ExprV::Call(f, args) => ExprV::Call(f, seq![lhs] + args),
        f => ExprV::Call(Box::new(f), seq![lhs]),
    }
}

/// The number of tokens from `p` on (0 outside the sequence).
pub open spec fn left(t: Toks, p: int) -> nat {
    if 0 <= p <= t.len() { (t.len() - p) as nat } else { 0 }
}

pub open spec fn in_range(t: Toks, p: int) -> bool {
    0 <= p < t.len()
}

/// A primary expression: literal, name, prefix operator, parenthesized expression,
/// `if` expression or block.
pub open spec fn sp_prefix(t: Toks, p: int) -> (Result<ExprV, ParseErrorV>, int)
    decreases left(t, p), 1int,
{
    if !in_range(t, p) {
        (Err(ParseErrorV::UnexpectedToken { line: 0, found: TokV::Eof }), p)
    } else {
        let tok = tok_at(t, p);
        let p1 = next_pos(t, p);
        match tok {
            TokV::Int(n) => (Ok(ExprV::Int(n)), p1),
            TokV::Float(x) => (Ok(ExprV::Float(x)), p1),
            TokV::Str(s) => (Ok(ExprV::Str(s)), p1),
            TokV::True => (Ok(ExprV::Bool(true)), p1),
            TokV::False => (Ok(ExprV::Bool(false)), p1),
            TokV::Nil => (Ok(ExprV::Nil), p1),
            TokV::Ident(s) => (Ok(ExprV::Ident(s)), p1),
            TokV::Minus | TokV::Bang => {
                if p < p1 {
                    let (r, p2) = sp_expr(t, p1, 8);
                    match r {
                        Err(x) => (Err(x), p2),
                        Ok(e) => (Ok(ExprV::Unary(tok, Box::new(e))), p2),
                    }
                } else {
                    (Err(ParseErrorV::UnexpectedToken { line: line_at(t, p1), found: tok }), p1)
                }
            },
            TokV::LParen => {
              if p < p1 {
                let (r, p2) = sp_expr(t, p1, 0);
                match r {
                    Err(x) => (Err(x), p2),
                    Ok(e) => {
                        let (r3, p3) = sp_expect(t, p2, TokV::RParen);
                        match r3 {
                            Err(x) => (Err(x), p3),
                            Ok(_) => (Ok(e), p3),
                        }
                    },
                }
              } else {
                (Err(ParseErrorV::UnexpectedToken { line: line_at(t, p1), found: tok }), p1)
              }
            },
            TokV::If => {
              if p < p1 {
                let (rc, p2) = sp_expr(t, p1, 0);
                match rc {
                    Err(x) => (Err(x), p2),
                    Ok(cond) => {
                        if p < p2 {
                            let (rt, p3) = sp_block(t, p2);
                            match rt {
                                Err(x) => (Err(x), p3),
                                Ok(then) => {
                                    if in_range(t, p3) && tok_at(t, p3) == TokV::Else {
                                        let p4 = next_pos(t, p3);
                                        if p < p4 && in_range(t, p4) && tok_at(t, p4) == TokV::If {
                                            let (re, p5) = sp_prefix(t, p4);
                                            match re {
                                                Err(x) => (Err(x), p5),
                                                Ok(e) => (
                                                    Ok(
                                                        ExprV::If(
                                                            Box::new(cond),
                                                            then,
                                                            Some(seq![StmtV::Expr(e)]),
                                                        ),
                                                    ),
                                                    p5,
                                                ),
                                            }
                                        } else if p < p4 {
                                            let (rb, p5) = sp_block(t, p4);
                                            match rb {
                                                Err(x) => (Err(x), p5),
                                                Ok(els) => (
                                                    Ok(ExprV::If(Box::new(cond), then, Some(els))),
                                                    p5,
                                                ),
                                            }
                                        } else {
                                            (Ok(ExprV::If(Box::new(cond), then, None)), p4)
                                        }
                                    } else {
                                        (Ok(ExprV::If(Box::new(cond), then, None)), p3)
                                    }
                                },
                            }
                        } else {
                            (Ok(cond), p2)
                        }
                    },
                }
              } else {
                (Err(ParseErrorV::UnexpectedToken { line: line_at(t, p1), found: tok }), p1)
              }
            },
            TokV::LBrace => {
                let (r, p2) = sp_block(t, p);
                match r {
                    Err(x) => (Err(x), p2),
                    Ok(b) => (Ok(ExprV::Block(b)), p2),
                }
            },
            TokV::From => {
                let (rv, p2) = sp_ident(t, p1);
                match rv {
                    Err(x) => (Err(x), p2),
                    Ok(var) => {
                        let (ri, p3) = sp_expect(t, p2, TokV::In);
                        match ri {
                            Err(x) => (Err(x), p3),
                            Ok(_) => {
                                let (rs, p4) = sp_ident(t, p3);
                                match rs {
                                    Err(x) => (Err(x), p4),
                                    Ok(source) => {
                                        if p < p4 {
                                            let (rf, p5) = sp_clause(t, p4, TokV::Where);
                                            match rf {
                                                Err(x) => (Err(x), p5),
                                                Ok(filter) => {
                                                    if p < p5 {
                                                        let (rl, p6) = sp_clause(t, p5, TokV::Select);
                                                        match rl {
                                                            Err(x) => (Err(x), p6),
                                                            Ok(select) => (
                                                                Ok(
                                                                    ExprV::Query {
                                                                        var,
                                                                        source,
                                                                        filter,
                                                                        select,
                                                                    },
                                                                ),
                                                                p6,
                                                            ),
                                                        }
                                                    } else {
                                                        (Ok(ExprV::Query { var, source, filter, select: None }), p5)
                                                    }
                                                },
                                            }
                                        } else {
                                            (Ok(ExprV::Query { var, source, filter: None, select: None }), p4)
                                        }
                                    },
                                }
                            },
                        }
                    },
                }
            },
            other => (Err(ParseErrorV::UnexpectedToken { line: line_at(t, p1), found: other }), p1),
        }
    }
}

/// An expression whose infix operators bind at least as tightly as `min_bp`.
pub open spec fn sp_expr(t: Toks, p: int, min_bp: u8) -> (Result<ExprV, ParseErrorV>, int)
    decreases left(t, p), 2int,
{
    if !in_range(t, p) {
        (Err(ParseErrorV::UnexpectedToken { line: 0, found: TokV::Eof }), p)
    } else {
        let (r, p1) = sp_prefix(t, p);
        match r {
            Err(x) => (Err(x), p1),
            Ok(lhs) => {
                if p < p1 {
                    sp_infix(t, p1, lhs, min_bp)
                } else {
                    (Ok(lhs), p1)
                }
            },
        }
    }
}

/// Continues an expression after `lhs`: calls `lhs(args)` and infix operators.
pub open spec fn sp_infix(t: Toks, p: int, lhs: ExprV, min_bp: u8) -> (
    Result<ExprV, ParseErrorV>,
    int,
)
    decreases left(t, p), 2int,
{
    if !in_range(t, p) {
        (Ok(lhs), p)
    } else if tok_at(t, p) == TokV::Dot {
        let (rn, p2) = sp_ident(t, next_pos(t, p));
        match rn {
            Err(x) => (Err(x), p2),
            Ok(name) => {
                if p < p2 {
                    sp_infix(t, p2, ExprV::Field(Box::new(lhs), name), min_bp)
                } else {
                    (Ok(ExprV::Field(Box::new(lhs), name)), p2)
                }
            },
        }
    } else if tok_at(t, p) == TokV::LParen {
        let p1 = next_pos(t, p);
        if p < p1 {
            let (ra, p2) = sp_args(t, p1, Seq::empty());
            match ra {
                Err(x) => (Err(x), p2),
                Ok(args) => {
                    let (re, p3) = sp_expect(t, p2, TokV::RParen);
                    match re {
                        Err(x) => (Err(x), p3),
                        Ok(_) => {
                            if p < p3 {
                                sp_infix(t, p3, ExprV::Call(Box::new(lhs), args), min_bp)
                            } else {
                                (Ok(ExprV::Call(Box::new(lhs), args)), p3)
                            }
                        },
                    }
                },
            }
        } else {
            (Ok(lhs), p)
        }
    } else {
        match infix_bp(tok_at(t, p)) {
            None => (Ok(lhs), p),
            Some((lbp, rbp)) => {
                if lbp < min_bp {
                    (Ok(lhs), p)
                } else {
                    let op = tok_at(t, p);
                    let p1 = next_pos(t, p);
                    if p < p1 {
                        let (rr, p2) = sp_expr(t, p1, rbp);
                        match rr {
                            Err(x) => (Err(x), p2),
                            Ok(rhs) => {
                                let nl = if op == TokV::Pipe {
                                    pipe_v(lhs, rhs)
                                } else {
                                    ExprV::Binary(op, Box::new(lhs), Box::new(rhs))
                                };
                                if p < p2 {
                                    sp_infix(t, p2, nl, min_bp)
                                } else {
                                    (Ok(nl), p2)
                                }
                            },
                        }
                    } else {
                        (Ok(lhs), p)
                    }
                }
            },
        }
    }
}

/// Call arguments up to (not including) `)`, each optionally followed by a comma.
pub open spec fn sp_args(t: Toks, p: int, acc: Seq<ExprV>) -> (Result<Seq<ExprV>, ParseErrorV>, int)
    decreases left(t, p), 3int,
{
    if !in_range(t, p) || tok_at(t, p) == TokV::RParen {
        (Ok(acc), p)
    } else {
        let (r, p1) = sp_expr(t, p, 0);
        match r {
            Err(x) => (Err(x), p1),
            Ok(e) => {
                let p2 = if in_range(t, p1) && tok_at(t, p1) == TokV::Comma {
                    next_pos(t, p1)
                } else {
                    p1
                };
                if p < p2 {
                    sp_args(t, p2, acc.push(e))
                } else {
                    (Ok(acc.push(e)), p2)
                }
            },
        }
    }
}

/// An optional `kw expr` clause of a query.
pub open spec fn sp_clause(t: Toks, p: int, kw: TokV) -> (Result<Option<Box<ExprV>>, ParseErrorV>, int)
    decreases left(t, p), 3int,
{
    if in_range(t, p) && tok_at(t, p) == kw {
        let p1 = next_pos(t, p);
        if p < p1 {
            let (r, p2) = sp_expr(t, p1, 0);
            match r {
                Err(x) => (Err(x), p2),
                Ok(e) => (Ok(Some(Box::new(e))), p2),
            }
        } else {
            (Ok(None), p)
        }
    } else {
        (Ok(None), p)
    }
}

/// Record fields `name : expr` up to (not including) `}`, each optionally followed by a
/// comma.
pub open spec fn sp_fields(t: Toks, p: int, acc: Seq<(Seq<char>, ExprV)>) -> (
    Result<Seq<(Seq<char>, ExprV)>, ParseErrorV>,
    int,
)
    decreases left(t, p), 3int,
{
    if !in_range(t, p) || tok_at(t, p) == TokV::RBrace {
        (Ok(acc), p)
    } else {
        let (rn, p1) = sp_ident(t, p);
        match rn {
            Err(x) => (Err(x), p1),
            Ok(k) => {
                let (rc, p2) = sp_expect(t, p1, TokV::Colon);
                match rc {
                    Err(x) => (Err(x), p2),
                    Ok(_) => {
                        if p < p2 {
                            let (rv, p3) = sp_expr(t, p2, 0);
                            match rv {
                                Err(x) => (Err(x), p3),
                                Ok(v) => {
                                    let p4 = if in_range(t, p3) && tok_at(t, p3) == TokV::Comma {
                                        next_pos(t, p3)
                                    } else {
                                        p3
                                    };
                                    if p < p4 {
                                        sp_fields(t, p4, acc.push((k, v)))
                                    } else {
                                        (Ok(acc.push((k, v))), p4)
                                    }
                                },
                            }
                        } else {
                            (Ok(acc), p2)
                        }
                    },
                }
            },
        }
    }
}

/// `{ stmt* }`.
pub open spec fn sp_block(t: Toks, p: int) -> (Result<Seq<StmtV>, ParseErrorV>, int)
    decreases left(t, p), 0int,
{
    if !in_range(t, p) {
        (Ok(Seq::empty()), p)
    } else {
        let (r, p1) = sp_expect(t, p, TokV::LBrace);
        match r {
            Err(x) => (Err(x), p1),
            Ok(_) => {
                if p < p1 {
                    let (rs, p2) = sp_stmts(t, p1, Seq::empty());
                    match rs {
                        Err(x) => (Err(x), p2),
                        Ok(stmts) => {
                            let (re, p3) = sp_expect(t, p2, TokV::RBrace);
                            match re {
                                Err(x) => (Err(x), p3),
                                Ok(_) => (Ok(stmts), p3),
                            }
                        },
                    }
                } else {
                    (Ok(Seq::empty()), p1)
                }
            },
        }
    }
}

/// Statements up to `}` or the end of input.
pub open spec fn sp_stmts(t: Toks, p: int, acc: Seq<StmtV>) -> (Result<Seq<StmtV>, ParseErrorV>, int)
    decreases left(t, p), 4int,
{
    if !in_range(t, p) || tok_at(t, p) == TokV::RBrace || tok_at(t, p) == TokV::Eof {
        (Ok(acc), p)
    } else {
        let (r, p1) = sp_stmt(t, p);
        match r {
            Err(x) => (Err(x), p1),
            Ok(s) => {
                if p < p1 {
                    sp_stmts(t, p1, acc.push(s))
                } else {
                    (Ok(acc.push(s)), p1)
                }
            },
        }
    }
}

/// One statement.
pub open spec fn sp_stmt(t: Toks, p: int) -> (Result<StmtV, ParseErrorV>, int)
    decreases left(t, p), 3int,
{
    if !in_range(t, p) {
        (Err(ParseErrorV::UnexpectedToken { line: 0, found: TokV::Eof }), p)
    } else {
        let tok = tok_at(t, p);
        match tok {
            TokV::Let | TokV::Var => {
                let (rn, p2) = sp_annotated(t, next_pos(t, p));
                match rn {
                    Err(x) => (Err(x), p2),
                    Ok(name) => {
                        let (re, p3) = sp_expect(t, p2, TokV::Eq);
                        match re {
                            Err(x) => (Err(x), p3),
                            Ok(_) => {
                                if p < p3 {
                                    let (rx, p4) = sp_expr(t, p3, 0);
                                    match rx {
                                        Err(x) => (Err(x), p4),
                                        Ok(e) => (
                                            Ok(
                                                if tok == TokV::Let {
                                                    StmtV::Let(name, e)
                                                } else {
                                                    StmtV::Var(name, e)
                                                },
                                            ),
                                            p4,
                                        ),
                                    }
                                } else {
                                    (Err(ParseErrorV::UnexpectedToken { line: 0, found: TokV::Eof }), p3)
                                }
                            },
                        }
                    },
                }
            },
            TokV::Fn => {
                let (rh, p1) = sp_fn_header(t, next_pos(t, p));
                match rh {
                    Err(x) => (Err(x), p1),
                    Ok((name, params)) => {
                        if p < p1 {
                            let (rb, p2) = sp_block(t, p1);
                            match rb {
                                Err(x) => (Err(x), p2),
                                Ok(body) => (Ok(StmtV::Fn(name, params, body)), p2),
                            }
                        } else {
                            (Err(ParseErrorV::UnexpectedToken { line: 0, found: TokV::Eof }), p1)
                        }
                    },
                }
            },
            TokV::While => {
                let p1 = next_pos(t, p);
                if p < p1 {
                    let (rc, p2) = sp_expr(t, p1, 0);
                    match rc {
                        Err(x) => (Err(x), p2),
                        Ok(cond) => {
                            if p < p2 {
                                let (rb, p3) = sp_block(t, p2);
                                match rb {
                                    Err(x) => (Err(x), p3),
                                    Ok(body) => (Ok(StmtV::While(cond, body)), p3),
                                }
                            } else {
                                (Err(ParseErrorV::UnexpectedToken { line: 0, found: TokV::Eof }), p2)
                            }
                        },
                    }
                } else {
                    (Err(ParseErrorV::UnexpectedToken { line: 0, found: TokV::Eof }), p1)
                }
            },
            TokV::Table => {
                let (rn, p1) = sp_ident(t, next_pos(t, p));
                match rn {
                    Err(x) => (Err(x), p1),
                    Ok(name) => {
                        let (rb, p2) = sp_expect(t, p1, TokV::LBrace);
                        match rb {
                            Err(x) => (Err(x), p2),
                            Ok(_) => {
                                let (rc, p3) = sp_columns(t, p2, Seq::empty());
                                match rc {
                                    Err(x) => (Err(x), p3),
                                    Ok(cols) => {
                                        let (re, p4) = sp_expect(t, p3, TokV::RBrace);
                                        match re {
                                            Err(x) => (Err(x), p4),
                                            Ok(_) => (Ok(StmtV::Table(name, cols)), p4),
                                        }
                                    },
                                }
                            },
                        }
                    },
                }
            },
            TokV::Insert => {
                let (rn, p1) = sp_ident(t, next_pos(t, p));
                match rn {
                    Err(x) => (Err(x), p1),
                    Ok(name) => {
                        let (rb, p2) = sp_expect(t, p1, TokV::LBrace);
                        match rb {
                            Err(x) => (Err(x), p2),
                            Ok(_) => {
                                if p < p2 {
                                    let (rf, p3) = sp_fields(t, p2, Seq::empty());
                                    match rf {
                                        Err(x) => (Err(x), p3),
                                        Ok(fields) => {
                                            let (re, p4) = sp_expect(t, p3, TokV::RBrace);
                                            match re {
                                                Err(x) => (Err(x), p4),
                                                Ok(_) => (Ok(StmtV::Insert(name, ExprV::Record(fields))), p4),
                                            }
                                        },
                                    }
                                } else {
                                    (Err(ParseErrorV::UnexpectedToken { line: 0, found: TokV::Eof }), p2)
                                }
                            },
                        }
                    },
                }
            },
            TokV::Return => {
                let p1 = next_pos(t, p);
                if tok_at(t, p1) == TokV::RBrace || tok_at(t, p1) == TokV::Eof {
                    (Ok(StmtV::Return(None)), p1)
                } else if p < p1 {
                    let (r, p2) = sp_expr(t, p1, 0);
                    match r {
                        Err(x) => (Err(x), p2),
                        Ok(e) => (Ok(StmtV::Return(Some(e))), p2),
                    }
                } else {
                    (Err(ParseErrorV::UnexpectedToken { line: 0, found: TokV::Eof }), p1)
                }
            },
            TokV::Ident(name) => {
                if p + 1 < t.len() && tok_at(t, p + 1) == TokV::Eq {
                    let p2 = next_pos(t, next_pos(t, p));
                    if p < p2 {
                        let (r, p3) = sp_expr(t, p2, 0);
                        match r {
                            Err(x) => (Err(x), p3),
                            Ok(e) => (Ok(StmtV::Assign(name, e)), p3),
                        }
                    } else {
                        (Err(ParseErrorV::UnexpectedToken { line: 0, found: TokV::Eof }), p2)
                    }
                } else {
                    let (r, p1) = sp_expr(t, p, 0);
                    match r {
                        Err(x) => (Err(x), p1),
                        Ok(e) => (Ok(StmtV::Expr(e)), p1),
                    }
                }
            },
            _ => {
                let (r, p1) = sp_expr(t, p, 0);
                match r {
                    Err(x) => (Err(x), p1),
                    Ok(e) => (Ok(StmtV::Expr(e)), p1),
                }
            },
        }
    }
}

/// Statements up to the end of input.
pub open spec fn sp_program(t: Toks, p: int, acc: Seq<StmtV>) -> Result<Seq<StmtV>, ParseErrorV>
    decreases left(t, p),
{
    if !in_range(t, p) || tok_at(t, p) == TokV::Eof {
        Ok(acc)
    } else {
        let (r, p1) = sp_stmt(t, p);
        match r {
            Err(x) => Err(x),
            Ok(s) => {
                if p < p1 {
                    sp_program(t, p1, acc.push(s))
                } else {
                    Ok(acc.push(s))
                }
            },
        }
    }
}

// ---------------------------------------------------------------------------
// The parser
// ---------------------------------------------------------------------------

pub open spec fn res_v<T: View>(r: Result<T, ParseError>) -> Result<T::V, ParseErrorV> {
    match r {
        Ok(x) => Ok(x@),
        Err(e) => Err(e@),
    }
}

pub open spec fn res_stmts_v(r: Result<Vec<Stmt>, ParseError>) -> Result<Seq<StmtV>, ParseErrorV> {
    match r {
        Ok(x) => Ok(stmts_v(x@)),
        Err(e) => Err(e@),
    }
}

pub struct Parser {
    toks: Vec<(Tok, usize)>,
    pos: usize,
}

impl Parser {
    /// The tokens being parsed.
    pub closed spec fn tokens(&self) -> Toks {
        toks_view(self.toks@)
    }

    /// The current position.
    pub closed spec fn position(&self) -> int {
        self.pos as int
    }

    /// There is at least one token, the last one is `Eof`, and the position is on a token.
    pub closed spec fn wf(&self) -> bool {
        &&& self.toks@.len() > 0
        &&& self.pos < self.toks@.len()
        &&& self.tokens().last().0 is Eof
    }

    /// A parser over `toks`, which must end with `Eof` (as the lexer's output does).
    pub fn new(toks: Vec<(Tok, usize)>) -> (p: Self)
        requires
            toks@.len() > 0,
            toks@.last().0@ is Eof,
        ensures
            p.wf(),
            p.tokens() == toks_view(toks@),
            p.position() == 0,
    {
        Parser { toks, pos: 0 }
    }

    fn peek(&self) -> (t: &Tok)
        requires
            self.wf(),
        ensures
            t@ == tok_at(self.tokens(), self.pos as int),
    {
        &self.toks[self.pos].0
    }

    fn peek_is(&self, k: &Tok) -> (b: bool)
        requires
            self.wf(),
        ensures
            b == (tok_at(self.tokens(), self.pos as int) == k@),
    {
        self.toks[self.pos].0.same(k)
    }

    fn line(&self) -> (l: usize)
        requires
            self.wf(),
        ensures
            l == line_at(self.tokens(), self.pos as int),
    {
        self.toks[self.pos].1
    }

    fn bump(&mut self) -> (t: Tok)
        requires
            old(self).wf(),
        ensures
            final(self).wf(),
            final(self).tokens() == old(self).tokens(),
            t@ == tok_at(old(self).tokens(), old(self).pos as int),
            final(self).pos == next_pos(old(self).tokens(), old(self).pos as int),
    {
        let t = self.toks[self.pos].0.duplicate();
        if self.pos < self.toks.len() - 1 {
            self.pos = self.pos + 1;
        }
        t
    }

    fn expect(&mut self, k: Tok) -> (r: Result<(), ParseError>)
        requires
            old(self).wf(),
        ensures
            final(self).wf(),
            final(self).tokens() == old(self).tokens(),
            ({
                let (sr, p) = sp_expect(old(self).tokens(), old(self).pos as int, k@);
                &&& final(self).pos == p
                &&& match r {
                    Ok(_) => sr is Ok,
                    Err(e) => sr == Err::<(), ParseErrorV>(e@),
                }
            }),
    {
        if self.peek_is(&k) {
            self.bump();
            Ok(())
        } else {
            Err(ParseError::Expected { line: self.line(), expected: k, found: self.peek().duplicate() })
        }
    }

    fn ident(&mut self) -> (r: Result<String, ParseError>)
        requires
            old(self).wf(),
        ensures
            final(self).wf(),
            final(self).tokens() == old(self).tokens(),
            ({
                let (sr, p) = sp_ident(old(self).tokens(), old(self).pos as int);
                &&& final(self).pos == p
                &&& (r is Ok ==> final(self).pos > old(self).pos)
                &&& match r {
                    Ok(s) => sr == Ok::<Seq<char>, ParseErrorV>(s@),
                    Err(e) => sr == Err::<Seq<char>, ParseErrorV>(e@),
                }
            }),
    {
        match self.peek() {
            Tok::Ident(s) => {
                let name = s.clone();
                self.bump();
                Ok(name)
            },
            _ => Err(ParseError::ExpectedIdent { line: self.line(), found: self.peek().duplicate() }),
        }
    }

    /// `ident (':' ident)?`
    fn annotated(&mut self) -> (r: Result<String, ParseError>)
        requires
            old(self).wf(),
        ensures
            final(self).wf(),
            final(self).tokens() == old(self).tokens(),
            ({
                let (sr, p) = sp_annotated(old(self).tokens(), old(self).pos as int);
                &&& final(self).pos == p
                &&& final(self).pos >= old(self).pos
                &&& (r is Ok ==> final(self).pos > old(self).pos)
                &&& match r {
                    Ok(s) => sr == Ok::<Seq<char>, ParseErrorV>(s@),
                    Err(e) => sr == Err::<Seq<char>, ParseErrorV>(e@),
                }
            }),
    {
        let name = self.ident()?;
        if self.peek_is(&Tok::Colon) {
            self.bump();
            self.ident()?;
        }
        Ok(name)
    }

    fn params(&mut self) -> (r: Result<Vec<String>, ParseError>)
        requires
            old(self).wf(),
        ensures
            final(self).wf(),
            final(self).tokens() == old(self).tokens(),
            ({
                let (sr, p) = sp_params(old(self).tokens(), old(self).pos as int, Seq::empty());
                &&& final(self).pos == p
                &&& final(self).pos >= old(self).pos
                &&& match r {
                    Ok(v) => sr == Ok::<Seq<Seq<char>>, ParseErrorV>(strings_v(v@)),
                    Err(e) => sr == Err::<Seq<Seq<char>>, ParseErrorV>(e@),
                }
            }),
    {
        let ghost t = self.tokens();
        let ghost target = sp_params(t, self.pos as int, Seq::empty());
        let mut params: Vec<String> = Vec::new();
        assert(strings_v(params@) =~= Seq::empty());
        let mut err: Option<ParseError> = None;
        while !self.peek_is(&Tok::RParen)
            invariant_except_break
                self.wf(),
                self.tokens() == old(self).tokens(),
                self.tokens() == t,
                sp_params(t, self.pos as int, strings_v(params@)) == target,
                err is None,
                old(self).pos <= self.pos,
            ensures
                old(self).pos <= self.pos,
                self.wf(),
                self.tokens() == old(self).tokens(),
                target.1 == self.pos as int,
                match err {
                    None => target.0 == Ok::<Seq<Seq<char>>, ParseErrorV>(strings_v(params@)),
                    Some(e) => target.0 == Err::<Seq<Seq<char>>, ParseErrorV>(e@),
                },
            decreases left(t, self.pos as int),
        {
            let ghost p = self.pos as int;
            let ghost acc = strings_v(params@);
            match self.annotated() {
                Err(e) => {
                    err = Some(e);
                    break;
                },
                Ok(n) => {
                    let ghost nv = n@;
                    params.push(n);
                    assert(strings_v(params@) =~= acc.push(nv));
                    if self.peek_is(&Tok::Comma) {
                        self.bump();
                    }
                },
            }
        }
        match err {
            Some(e) => Err(e),
            None => Ok(params),
        }
    }

    proof fn lemma_not_last(&self)
        requires
            self.wf(),
        ensures
            tok_at(self.tokens(), self.toks@.len() - 1) is Eof,
            self.tokens().len() == self.toks@.len(),
    {
    }

    /// `from var in source (where expr)? (select expr)?`.
    fn parse_query(&mut self) -> (r: Result<Expr, ParseError>)
        requires
            old(self).wf(),
            tok_at(old(self).tokens(), old(self).pos as int) is From,
        ensures
            final(self).wf(),
            final(self).tokens() == old(self).tokens(),
            ({
                let (sr, p) = sp_prefix(old(self).tokens(), old(self).pos as int);
                &&& final(self).pos == p
                &&& final(self).pos >= old(self).pos
                &&& (r is Ok ==> final(self).pos > old(self).pos)
                &&& res_v(r) == sr
            }),
        decreases left(old(self).tokens(), old(self).pos as int), 0int,
    {
        proof {
            self.lemma_not_last();
        }
        self.bump();
        let var = self.ident()?;
        self.expect(Tok::In)?;
        let source = self.ident()?;
        let filter = self.clause(Tok::Where)?;
        let select = self.clause(Tok::Select)?;
        Ok(Expr::Query { var, source, filter, select })
    }

    /// A primary expression.
    fn prefix(&mut self) -> (r: Result<Expr, ParseError>)
        requires
            old(self).wf(),
        ensures
            final(self).wf(),
            final(self).tokens() == old(self).tokens(),
            ({
                let (sr, p) = sp_prefix(old(self).tokens(), old(self).pos as int);
                &&& final(self).pos == p
                &&& final(self).pos >= old(self).pos
                &&& (r is Ok ==> final(self).pos > old(self).pos)
                &&& res_v(r) == sr
            }),
        decreases left(old(self).tokens(), old(self).pos as int), 1int,
    {
        let ghost t = self.tokens();
        let ghost p0 = self.pos as int;
        proof {
            self.lemma_not_last();
        }
        if self.peek_is(&Tok::From) {
            return self.parse_query();
        }
        let tok = self.bump();
        let ghost p1 = self.pos as int;
        assert(tok@ is Eof || p0 < p1);
        match tok {
            Tok::Int(n) => Ok(Expr::Int(n)),
            Tok::Float(x) => Ok(Expr::Float(x)),
            Tok::Str(x) => Ok(Expr::Str(x)),
            Tok::True => Ok(Expr::Bool(true)),
            Tok::False => Ok(Expr::Bool(false)),
            Tok::Nil => Ok(Expr::Nil),
            Tok::Ident(x) => Ok(Expr::Ident(x)),
            Tok::Minus => {
                let e = self.parse_expr(8)?;
                Ok(Expr::Unary(Tok::Minus, Box::new(e)))
            },
            Tok::Bang => {
                let e = self.parse_expr(8)?;
                Ok(Expr::Unary(Tok::Bang, Box::new(e)))
            },
            Tok::LParen => {
                let e = self.parse_expr(0)?;
                self.expect(Tok::RParen)?;
                Ok(e)
            },
            Tok::If => {
                let cond = self.parse_expr(0)?;
                let then = self.parse_block()?;
                let ghost p3 = self.pos as int;
                let els = if self.peek_is(&Tok::Else) {
                    proof {
                        self.lemma_not_last();
                    }
                    self.bump();
                    if self.peek_is(&Tok::If) {
                        let e = self.prefix()?;
                        let mut v: Vec<Stmt> = Vec::new();
                        v.push(Stmt::Expr(e));
                        assert(stmts_v(v@) =~= seq![StmtV::Expr(e@)]);
                        Some(v)
                    } else {
                        Some(self.parse_block()?)
                    }
                } else {
                    None
                };
                Ok(Expr::If(Box::new(cond), then, els))
            },
            Tok::LBrace => {
                self.pos = self.pos - 1;
                let b = self.parse_block()?;
                Ok(Expr::Block(b))
            },
            other => Err(ParseError::UnexpectedToken { line: self.line(), found: other }),
        }
    }

    /// Call arguments up to (not including) `)`.
    fn parse_args(&mut self) -> (r: Result<Vec<Expr>, ParseError>)
        requires
            old(self).wf(),
        ensures
            final(self).wf(),
            final(self).tokens() == old(self).tokens(),
            ({
                let (sr, p) = sp_args(old(self).tokens(), old(self).pos as int, Seq::empty());
                &&& final(self).pos == p
                &&& final(self).pos >= old(self).pos
                &&& match r {
                    Ok(v) => sr == Ok::<Seq<ExprV>, ParseErrorV>(exprs_v(v@)),
                    Err(e) => sr == Err::<Seq<ExprV>, ParseErrorV>(e@),
                }
            }),
        decreases left(old(self).tokens(), old(self).pos as int), 4int,
    {
        let ghost t = self.tokens();
        let ghost p0 = self.pos as int;
        let ghost target = sp_args(t, p0, Seq::empty());
        let mut args: Vec<Expr> = Vec::new();
        assert(exprs_v(args@) =~= Seq::empty());
        let mut err: Option<ParseError> = None;
        while !self.peek_is(&Tok::RParen)
            invariant_except_break
                self.wf(),
                self.tokens() == old(self).tokens(),
                self.tokens() == t,
                p0 <= self.pos,
                p0 == old(self).pos,
                sp_args(t, self.pos as int, exprs_v(args@)) == target,
                err is None,
            ensures
                self.wf(),
                self.tokens() == old(self).tokens(),
                p0 <= self.pos,
                target.1 == self.pos as int,
                match err {
                    None => target.0 == Ok::<Seq<ExprV>, ParseErrorV>(exprs_v(args@)),
                    Some(e) => target.0 == Err::<Seq<ExprV>, ParseErrorV>(e@),
                },
            decreases left(t, self.pos as int),
        {
            let ghost acc = exprs_v(args@);
            match self.parse_expr(0) {
                Err(e) => {
                    err = Some(e);
                    break;
                },
                Ok(e) => {
                    let ghost ev = e@;
                    args.push(e);
                    assert(exprs_v(args@) =~= acc.push(ev));
                    if self.peek_is(&Tok::Comma) {
                        proof {
                            self.lemma_not_last();
                        }
                        self.bump();
                    }
                },
            }
        }
        match err {
            Some(e) => Err(e),
            None => Ok(args),
        }
    }

    /// An expression whose infix operators bind at least as tightly as `min_bp`.
    pub fn parse_expr(&mut self, min_bp: u8) -> (r: Result<Expr, ParseError>)
        requires
            old(self).wf(),
        ensures
            final(self).wf(),
            final(self).tokens() == old(self).tokens(),
            ({
                let (sr, p) = sp_expr(old(self).tokens(), old(self).position(), min_bp);
                &&& final(self).position() == p
                &&& final(self).position() >= old(self).position()
                &&& (r is Ok ==> final(self).position() > old(self).position())
                &&& res_v(r) == sr
            }),
        decreases left(old(self).tokens(), old(self).position()), 2int,
    {
        let ghost t = self.tokens();
        let ghost p0 = self.pos as int;
        let mut lhs = self.prefix()?;
        let ghost target = sp_infix(t, self.pos as int, lhs@, min_bp);
        let mut err: Option<ParseError> = None;
        loop
            invariant_except_break
                self.wf(),
                self.tokens() == old(self).tokens(),
                self.tokens() == t,
                p0 < self.pos,
                p0 == old(self).pos,
                sp_infix(t, self.pos as int, lhs@, min_bp) == target,
                err is None,
            ensures
                self.wf(),
                self.tokens() == old(self).tokens(),
                p0 < self.pos,
                target.1 == self.pos as int,
                match err {
                    None => target.0 == Ok::<ExprV, ParseErrorV>(lhs@),
                    Some(e) => target.0 == Err::<ExprV, ParseErrorV>(e@),
                },
            decreases left(t, self.pos as int),
        {
            proof {
                self.lemma_not_last();
            }
            if self.peek_is(&Tok::Dot) {
                self.bump();
                match self.ident() {
                    Err(e) => {
                        err = Some(e);
                        break;
                    },
                    Ok(name) => {
                        lhs = Expr::Field(Box::new(lhs), name);
                    },
                }
            } else if self.peek_is(&Tok::LParen) {
                self.bump();
                match self.parse_args() {
                    Err(e) => {
                        err = Some(e);
                        break;
                    },
                    Ok(args) => {
                        match self.expect(Tok::RParen) {
                            Err(e) => {
                                err = Some(e);
                                break;
                            },
                            Ok(_) => {
                                lhs = Expr::Call(Box::new(lhs), args);
                            },
                        }
                    },
                }
            } else {
                let op = self.peek().duplicate();
                match infix_bp_of(&op) {
                    None => {
                        break;
                    },
                    Some((lbp, rbp)) => {
                        if lbp < min_bp {
                            break;
                        }
                        self.bump();
                        match self.parse_expr(rbp) {
                            Err(e) => {
                                err = Some(e);
                                break;
                            },
                            Ok(rhs) => {
                                let ghost lv = lhs@;
                                let ghost rv = rhs@;
                                if op.is_pipe() {
                                    lhs = match rhs {
                                        Expr::Call(f, mut args) => {
                                            let ghost av = exprs_v(args@);
                                            args.insert(0, lhs);
                                            assert(exprs_v(args@) =~= seq![lv] + av);
                                            Expr::Call(f, args)
                                        },
                                        f => {
                                            let mut args: Vec<Expr> = Vec::new();
                                            args.push(lhs);
                                            assert(exprs_v(args@) =~= seq![lv]);
                                            Expr::Call(Box::new(f), args)
                                        },
                                    };
                                    assert(lhs@ == pipe_v(lv, rv));
                                } else {
                                    lhs = Expr::Binary(op, Box::new(lhs), Box::new(rhs));
                                }
                            },
                        }
                    },
                }
            }
        }
        match err {
            Some(e) => Err(e),
            None => Ok(lhs),
        }
    }

    /// `{ stmt* }`.
    fn parse_block(&mut self) -> (r: Result<Vec<Stmt>, ParseError>)
        requires
            old(self).wf(),
        ensures
            final(self).wf(),
            final(self).tokens() == old(self).tokens(),
            ({
                let (sr, p) = sp_block(old(self).tokens(), old(self).pos as int);
                &&& final(self).pos == p
                &&& final(self).pos >= old(self).pos
                &&& (r is Ok ==> final(self).pos > old(self).pos)
                &&& res_stmts_v(r) == sr
            }),
        decreases left(old(self).tokens(), old(self).pos as int), 0int,
    {
        let ghost t = self.tokens();
        let ghost p0 = self.pos as int;
        proof {
            self.lemma_not_last();
        }
        self.expect(Tok::LBrace)?;
        let ghost target = sp_stmts(t, self.pos as int, Seq::empty());
        let mut stmts: Vec<Stmt> = Vec::new();
        assert(stmts_v(stmts@) =~= Seq::empty());
        let mut err: Option<ParseError> = None;
        while !self.peek_is(&Tok::RBrace) && !self.peek_is(&Tok::Eof)
            invariant_except_break
                self.wf(),
                self.tokens() == old(self).tokens(),
                self.tokens() == t,
                p0 < self.pos,
                p0 == old(self).pos,
                sp_stmts(t, self.pos as int, stmts_v(stmts@)) == target,
                err is None,
            ensures
                self.wf(),
                self.tokens() == old(self).tokens(),
                p0 < self.pos,
                target.1 == self.pos as int,
                match err {
                    None => target.0 == Ok::<Seq<StmtV>, ParseErrorV>(stmts_v(stmts@)),
                    Some(e) => target.0 == Err::<Seq<StmtV>, ParseErrorV>(e@),
                },
            decreases left(t, self.pos as int),
        {
            let ghost acc = stmts_v(stmts@);
            match self.parse_stmt() {
                Err(e) => {
                    err = Some(e);
                    break;
                },
                Ok(st) => {
                    let ghost sv = st@;
                    stmts.push(st);
                    assert(stmts_v(stmts@) =~= acc.push(sv));
                },
            }
        }
        if let Some(e) = err {
            return Err(e);
        }
        self.expect(Tok::RBrace)?;
        Ok(stmts)
    }

    /// `let`/`var` statement.
    fn parse_binding(&mut self) -> (r: Result<Stmt, ParseError>)
        requires
            old(self).wf(),
            tok_at(old(self).tokens(), old(self).pos as int) is Let
                || tok_at(old(self).tokens(), old(self).pos as int) is Var,
        ensures
            final(self).wf(),
            final(self).tokens() == old(self).tokens(),
            ({
                let (sr, p) = sp_stmt(old(self).tokens(), old(self).pos as int);
                &&& final(self).pos == p
                &&& final(self).pos >= old(self).pos
                &&& (r is Ok ==> final(self).pos > old(self).pos)
                &&& res_v(r) == sr
            }),
        decreases left(old(self).tokens(), old(self).pos as int), 3int,
    {
        proof {
            self.lemma_not_last();
        }
        let is_let = self.peek_is(&Tok::Let);
        self.bump();
        let name = self.annotated()?;
        self.expect(Tok::Eq)?;
        let e = self.parse_expr(0)?;
        if is_let {
            Ok(Stmt::Let(name, e))
        } else {
            Ok(Stmt::Var(name, e))
        }
    }

    /// `name ( params ) (-> type)?`
    fn fn_header(&mut self) -> (r: Result<(String, Vec<String>), ParseError>)
        requires
            old(self).wf(),
        ensures
            final(self).wf(),
            final(self).tokens() == old(self).tokens(),
            ({
                let (sr, p) = sp_fn_header(old(self).tokens(), old(self).pos as int);
                &&& final(self).pos == p
                &&& final(self).pos >= old(self).pos
                &&& match r {
                    Ok((n, ps)) => sr == Ok::<(Seq<char>, Seq<Seq<char>>), ParseErrorV>(
                        (n@, strings_v(ps@)),
                    ),
                    Err(e) => sr == Err::<(Seq<char>, Seq<Seq<char>>), ParseErrorV>(e@),
                }
            }),
    {
        proof {
            self.lemma_not_last();
        }
        let name = self.ident()?;
        self.expect(Tok::LParen)?;
        let params = self.params()?;
        self.expect(Tok::RParen)?;
        if self.peek_is(&Tok::Arrow) {
            self.bump();
            self.ident()?;
        }
        Ok((name, params))
    }

    /// `fn` statement.
    fn parse_fn(&mut self) -> (r: Result<Stmt, ParseError>)
        requires
            old(self).wf(),
            tok_at(old(self).tokens(), old(self).pos as int) is Fn,
        ensures
            final(self).wf(),
            final(self).tokens() == old(self).tokens(),
            ({
                let (sr, p) = sp_stmt(old(self).tokens(), old(self).pos as int);
                &&& final(self).pos == p
                &&& final(self).pos >= old(self).pos
                &&& (r is Ok ==> final(self).pos > old(self).pos)
                &&& res_v(r) == sr
            }),
        decreases left(old(self).tokens(), old(self).pos as int), 3int,
    {
        proof {
            self.lemma_not_last();
        }
        self.bump();
        let (name, params) = self.fn_header()?;
        let body = self.parse_block()?;
        Ok(Stmt::Fn(name, params, body))
    }

    /// `while` statement.
    fn parse_while(&mut self) -> (r: Result<Stmt, ParseError>)
        requires
            old(self).wf(),
            tok_at(old(self).tokens(), old(self).pos as int) is While,
        ensures
            final(self).wf(),
            final(self).tokens() == old(self).tokens(),
            ({
                let (sr, p) = sp_stmt(old(self).tokens(), old(self).pos as int);
                &&& final(self).pos == p
                &&& final(self).pos >= old(self).pos
                &&& (r is Ok ==> final(self).pos > old(self).pos)
                &&& res_v(r) == sr
            }),
        decreases left(old(self).tokens(), old(self).pos as int), 3int,
    {
        proof {
            self.lemma_not_last();
        }
        self.bump();
        let cond = self.parse_expr(0)?;
        let body = self.parse_block()?;
        Ok(Stmt::While(cond, body))
    }

    /// `return` statement.
    fn parse_return(&mut self) -> (r: Result<Stmt, ParseError>)
        requires
            old(self).wf(),
            tok_at(old(self).tokens(), old(self).pos as int) is Return,
        ensures
            final(self).wf(),
            final(self).tokens() == old(self).tokens(),
            ({
                let (sr, p) = sp_stmt(old(self).tokens(), old(self).pos as int);
                &&& final(self).pos == p
                &&& final(self).pos >= old(self).pos
                &&& (r is Ok ==> final(self).pos > old(self).pos)
                &&& res_v(r) == sr
            }),
        decreases left(old(self).tokens(), old(self).pos as int), 3int,
    {
        proof {
            self.lemma_not_last();
        }
        self.bump();
        if self.peek_is(&Tok::RBrace) || self.peek_is(&Tok::Eof) {
            Ok(Stmt::Return(None))
        } else {
            let e = self.parse_expr(0)?;
            Ok(Stmt::Return(Some(e)))
        }
    }

    /// A table column `name : type`.
    fn column(&mut self) -> (r: Result<(String, String), ParseError>)
        requires
            old(self).wf(),
        ensures
            final(self).wf(),
            final(self).tokens() == old(self).tokens(),
            ({
                let (sr, p) = sp_column(old(self).tokens(), old(self).pos as int);
                &&& final(self).pos == p
                &&& final(self).pos >= old(self).pos
                &&& match r {
                    Ok(c) => sr == Ok::<(Seq<char>, Seq<char>), ParseErrorV>((c.0@, c.1@)),
                    Err(e) => sr == Err::<(Seq<char>, Seq<char>), ParseErrorV>(e@),
                }
            }),
    {
        let n = self.ident()?;
        self.expect(Tok::Colon)?;
        let ty = self.ident()?;
        Ok((n, ty))
    }

    /// Table columns up to (not including) `}`.
    fn columns(&mut self) -> (r: Result<Vec<(String, String)>, ParseError>)
        requires
            old(self).wf(),
        ensures
            final(self).wf(),
            final(self).tokens() == old(self).tokens(),
            ({
                let (sr, p) = sp_columns(old(self).tokens(), old(self).pos as int, Seq::empty());
                &&& final(self).pos == p
                &&& final(self).pos >= old(self).pos
                &&& match r {
                    Ok(v) => sr == Ok::<Seq<(Seq<char>, Seq<char>)>, ParseErrorV>(pairs_v(v@)),
                    Err(e) => sr == Err::<Seq<(Seq<char>, Seq<char>)>, ParseErrorV>(e@),
                }
            }),
    {
        let ghost t = self.tokens();
        let ghost target = sp_columns(t, self.pos as int, Seq::empty());
        let mut cols: Vec<(String, String)> = Vec::new();
        assert(pairs_v(cols@) =~= Seq::empty());
        let mut err: Option<ParseError> = None;
        while !self.peek_is(&Tok::RBrace)
            invariant_except_break
                self.wf(),
                self.tokens() == old(self).tokens(),
                self.tokens() == t,
                sp_columns(t, self.pos as int, pairs_v(cols@)) == target,
                err is None,
                old(self).pos <= self.pos,
            ensures
                old(self).pos <= self.pos,
                self.wf(),
                self.tokens() == old(self).tokens(),
                target.1 == self.pos as int,
                match err {
                    None => target.0 == Ok::<Seq<(Seq<char>, Seq<char>)>, ParseErrorV>(pairs_v(cols@)),
                    Some(e) => target.0 == Err::<Seq<(Seq<char>, Seq<char>)>, ParseErrorV>(e@),
                },
            decreases left(t, self.pos as int),
        {
            let ghost acc = pairs_v(cols@);
            match self.column() {
                Err(e) => {
                    err = Some(e);
                    break;
                },
                Ok(c) => {
                    let ghost cv = (c.0@, c.1@);
                    cols.push(c);
                    assert(pairs_v(cols@) =~= acc.push(cv));
                    if self.peek_is(&Tok::Comma) {
                        self.bump();
                    }
                },
            }
        }
        match err {
            Some(e) => Err(e),
            None => Ok(cols),
        }
    }

    /// `table` statement.
    fn parse_table(&mut self) -> (r: Result<Stmt, ParseError>)
        requires
            old(self).wf(),
            tok_at(old(self).tokens(), old(self).pos as int) is Table,
        ensures
            final(self).wf(),
            final(self).tokens() == old(self).tokens(),
            ({
                let (sr, p) = sp_stmt(old(self).tokens(), old(self).pos as int);
                &&& final(self).pos == p
                &&& final(self).pos >= old(self).pos
                &&& (r is Ok ==> final(self).pos > old(self).pos)
                &&& res_v(r) == sr
            }),
    {
        proof {
            self.lemma_not_last();
        }
        self.bump();
        let name = self.ident()?;
        self.expect(Tok::LBrace)?;
        let cols = self.columns()?;
        self.expect(Tok::RBrace)?;
        Ok(Stmt::Table(name, cols))
    }

    /// Record fields `name : expr` up to (not including) `}`.
    fn fields(&mut self) -> (r: Result<Vec<(String, Expr)>, ParseError>)
        requires
            old(self).wf(),
        ensures
            final(self).wf(),
            final(self).tokens() == old(self).tokens(),
            ({
                let (sr, p) = sp_fields(old(self).tokens(), old(self).pos as int, Seq::empty());
                &&& final(self).pos == p
                &&& final(self).pos >= old(self).pos
                &&& match r {
                    Ok(v) => sr == Ok::<Seq<(Seq<char>, ExprV)>, ParseErrorV>(fields_v(v@)),
                    Err(e) => sr == Err::<Seq<(Seq<char>, ExprV)>, ParseErrorV>(e@),
                }
            }),
        decreases left(old(self).tokens(), old(self).pos as int), 4int,
    {
        let ghost t = self.tokens();
        let ghost p0 = self.pos as int;
        let ghost target = sp_fields(t, p0, Seq::empty());
        let mut fs: Vec<(String, Expr)> = Vec::new();
        assert(fields_v(fs@) =~= Seq::empty());
        let mut err: Option<ParseError> = None;
        while !self.peek_is(&Tok::RBrace)
            invariant_except_break
                self.wf(),
                self.tokens() == old(self).tokens(),
                self.tokens() == t,
                p0 <= self.pos,
                p0 == old(self).pos,
                sp_fields(t, self.pos as int, fields_v(fs@)) == target,
                err is None,
            ensures
                self.wf(),
                self.tokens() == old(self).tokens(),
                p0 <= self.pos,
                target.1 == self.pos as int,
                match err {
                    None => target.0 == Ok::<Seq<(Seq<char>, ExprV)>, ParseErrorV>(fields_v(fs@)),
                    Some(e) => target.0 == Err::<Seq<(Seq<char>, ExprV)>, ParseErrorV>(e@),
                },
            decreases left(t, self.pos as int),
        {
            let ghost acc = fields_v(fs@);
            let k = match self.ident() {
                Err(e) => {
                    err = Some(e);
                    break;
                },
                Ok(k) => k,
            };
            match self.expect(Tok::Colon) {
                Err(e) => {
                    err = Some(e);
                    break;
                },
                Ok(_) => {},
            }
            match self.parse_expr(0) {
                Err(e) => {
                    err = Some(e);
                    break;
                },
                Ok(v) => {
                    let ghost kv = (k@, v@);
                    fs.push((k, v));
                    assert(fields_v(fs@) =~= acc.push(kv));
                    if self.peek_is(&Tok::Comma) {
                        proof {
                            self.lemma_not_last();
                        }
                        self.bump();
                    }
                },
            }
        }
        match err {
            Some(e) => Err(e),
            None => Ok(fs),
        }
    }

    /// `insert` statement: a table name and a record.
    fn parse_insert(&mut self) -> (r: Result<Stmt, ParseError>)
        requires
            old(self).wf(),
            tok_at(old(self).tokens(), old(self).pos as int) is Insert,
        ensures
            final(self).wf(),
            final(self).tokens() == old(self).tokens(),
            ({
                let (sr, p) = sp_stmt(old(self).tokens(), old(self).pos as int);
                &&& final(self).pos == p
                &&& final(self).pos >= old(self).pos
                &&& (r is Ok ==> final(self).pos > old(self).pos)
                &&& res_v(r) == sr
            }),
        decreases left(old(self).tokens(), old(self).pos as int), 3int,
    {
        proof {
            self.lemma_not_last();
        }
        self.bump();
        let name = self.ident()?;
        self.expect(Tok::LBrace)?;
        let fs = self.fields()?;
        self.expect(Tok::RBrace)?;
        Ok(Stmt::Insert(name, Expr::Record(fs)))
    }

    /// An optional `kw expr` query clause.
    fn clause(&mut self, kw: Tok) -> (r: Result<Option<Box<Expr>>, ParseError>)
        requires
            old(self).wf(),
            !(kw@ is Eof),
        ensures
            final(self).wf(),
            final(self).tokens() == old(self).tokens(),
            ({
                let (sr, p) = sp_clause(old(self).tokens(), old(self).pos as int, kw@);
                &&& final(self).pos == p
                &&& final(self).pos >= old(self).pos
                &&& match r {
                    Ok(Some(e)) => sr == Ok::<Option<Box<ExprV>>, ParseErrorV>(Some(Box::new(e@))),
                    Ok(None) => sr == Ok::<Option<Box<ExprV>>, ParseErrorV>(None),
                    Err(e) => sr == Err::<Option<Box<ExprV>>, ParseErrorV>(e@),
                }
            }),
        decreases left(old(self).tokens(), old(self).pos as int), 3int,
    {
        if self.peek_is(&kw) {
            proof {
                self.lemma_not_last();
            }
            self.bump();
            let e = self.parse_expr(0)?;
            Ok(Some(Box::new(e)))
        } else {
            Ok(None)
        }
    }

    /// Assignment or expression statement.
    fn parse_simple(&mut self) -> (r: Result<Stmt, ParseError>)
        requires
            old(self).wf(),
            !(tok_at(old(self).tokens(), old(self).pos as int) is Let),
            !(tok_at(old(self).tokens(), old(self).pos as int) is Var),
            !(tok_at(old(self).tokens(), old(self).pos as int) is Fn),
            !(tok_at(old(self).tokens(), old(self).pos as int) is While),
            !(tok_at(old(self).tokens(), old(self).pos as int) is Return),
            !(tok_at(old(self).tokens(), old(self).pos as int) is Table),
            !(tok_at(old(self).tokens(), old(self).pos as int) is Insert),
        ensures
            final(self).wf(),
            final(self).tokens() == old(self).tokens(),
            ({
                let (sr, p) = sp_stmt(old(self).tokens(), old(self).pos as int);
                &&& final(self).pos == p
                &&& final(self).pos >= old(self).pos
                &&& (r is Ok ==> final(self).pos > old(self).pos)
                &&& res_v(r) == sr
            }),
        decreases left(old(self).tokens(), old(self).pos as int), 3int,
    {
        proof {
            self.lemma_not_last();
        }
        let assign_to = match self.peek() {
            Tok::Ident(name) => {
                if self.pos < self.toks.len() - 1 && self.toks[self.pos + 1].0.same(&Tok::Eq) {
                    Some(name.clone())
                } else {
                    None
                }
            },
            _ => None,
        };
        match assign_to {
            Some(name) => {
                self.bump();
                self.bump();
                let e = self.parse_expr(0)?;
                Ok(Stmt::Assign(name, e))
            },
            None => {
                let e = self.parse_expr(0)?;
                Ok(Stmt::Expr(e))
            },
        }
    }

    /// One statement.
    fn parse_stmt(&mut self) -> (r: Result<Stmt, ParseError>)
        requires
            old(self).wf(),
        ensures
            final(self).wf(),
            final(self).tokens() == old(self).tokens(),
            ({
                let (sr, p) = sp_stmt(old(self).tokens(), old(self).pos as int);
                &&& final(self).pos == p
                &&& final(self).pos >= old(self).pos
                &&& (r is Ok ==> final(self).pos > old(self).pos)
                &&& res_v(r) == sr
            }),
        decreases left(old(self).tokens(), old(self).pos as int), 4int,
    {
        if self.peek_is(&Tok::Let) || self.peek_is(&Tok::Var) {
            self.parse_binding()
        } else if self.peek_is(&Tok::Fn) {
            self.parse_fn()
        } else if self.peek_is(&Tok::While) {
            self.parse_while()
        } else if self.peek_is(&Tok::Return) {
            self.parse_return()
        } else if self.peek_is(&Tok::Table) {
            self.parse_table()
        } else if self.peek_is(&Tok::Insert) {
            self.parse_insert()
        } else {
            self.parse_simple()
        }
    }

    /// Parses statements up to the end of input.
    pub fn parse_program(&mut self) -> (r: Result<Vec<Stmt>, ParseError>)
        requires
            old(self).wf(),
        ensures
            final(self).wf(),
            final(self).tokens() == old(self).tokens(),
            res_stmts_v(r) == sp_program(old(self).tokens(), old(self).position(), Seq::empty()),
    {
        let ghost t = self.tokens();
        let ghost target = sp_program(t, self.pos as int, Seq::empty());
        let mut stmts: Vec<Stmt> = Vec::new();
        assert(stmts_v(stmts@) =~= Seq::empty());
        let mut err: Option<ParseError> = None;
        while !self.peek_is(&Tok::Eof)
            invariant_except_break
                self.wf(),
                self.tokens() == old(self).tokens(),
                self.tokens() == t,
                sp_program(t, self.pos as int, stmts_v(stmts@)) == target,
                err is None,
            ensures
                self.wf(),
                self.tokens() == old(self).tokens(),
                match err {
                    None => target == Ok::<Seq<StmtV>, ParseErrorV>(stmts_v(stmts@)),
                    Some(e) => target == Err::<Seq<StmtV>, ParseErrorV>(e@),
                },
            decreases left(t, self.pos as int),
        {
            let ghost acc = stmts_v(stmts@);
            match self.parse_stmt() {
                Err(e) => {
                    err = Some(e);
                    break;
                },
                Ok(st) => {
                    let ghost sv = st@;
                    stmts.push(st);
                    assert(stmts_v(stmts@) =~= acc.push(sv));
                },
            }
        }
        match err {
            Some(e) => Err(e),
            None => Ok(stmts),
        }
    }
}

/// Binding powers of an infix operator token.
pub fn infix_bp_of(t: &Tok) -> (r: Option<(u8, u8)>)
    ensures
        r == infix_bp(t@),
{
    match t {
        Tok::OrOr => Some((1, 2)),
        Tok::AndAnd => Some((2, 3)),
        Tok::EqEq | Tok::NotEq => Some((3, 4)),
        Tok::Lt | Tok::Le | Tok::Gt | Tok::Ge => Some((4, 5)),
        Tok::Pipe => Some((5, 6)),
        Tok::Plus | Tok::Minus => Some((6, 7)),
        Tok::Star | Tok::Slash | Tok::Percent => Some((7, 8)),
        _ => None,
    }
}

} // verus!
