//! Lexer for CodeIO v0 source text.
//!
//! The lexical structure is specified over the source bytes: `skip_end` says where
//! whitespace and (nested) comments end, and `lex_at` says which token, or which
//! error, starts at a position and where it ends.

use vstd::prelude::*;
use crate::text::push_char;
use vstd::string::StringSliceAdditionalSpecFns;

verus! {

// Byte values used by the lexer.
pub const B_NUL: u8 = 0;
pub const B_TAB: u8 = 9;
pub const B_LF: u8 = 10;
pub const B_CR: u8 = 13;
pub const B_SPACE: u8 = 32;
pub const B_BANG: u8 = 33;
pub const B_QUOTE: u8 = 34;
pub const B_PERCENT: u8 = 37;
pub const B_AMP: u8 = 38;
pub const B_LPAREN: u8 = 40;
pub const B_RPAREN: u8 = 41;
pub const B_STAR: u8 = 42;
pub const B_PLUS: u8 = 43;
pub const B_COMMA: u8 = 44;
pub const B_MINUS: u8 = 45;
pub const B_DOT: u8 = 46;
pub const B_SLASH: u8 = 47;
pub const B_COLON: u8 = 58;
pub const B_LT: u8 = 60;
pub const B_EQ: u8 = 61;
pub const B_GT: u8 = 62;
pub const B_LBRACKET: u8 = 91;
pub const B_BACKSLASH: u8 = 92;
pub const B_RBRACKET: u8 = 93;
pub const B_UNDERSCORE: u8 = 95;
pub const B_LBRACE: u8 = 123;
pub const B_PIPE: u8 = 124;
pub const B_RBRACE: u8 = 125;

/// A token. Float literals carry their source text (digits and point, underscores removed).
#[derive(Debug, Clone, PartialEq)]
pub enum Tok {
    Int(i64),
    Float(String),
    Str(String),
    Ident(String),
    // keywords
    Let, Var, Fn, If, Else, While, For, In, Return, True, False, Nil,
    Table, Insert, From, Where, Select,
    // symbols
    LParen, RParen, LBrace, RBrace, LBracket, RBracket, Comma, Colon, Arrow, Pipe,
    Plus, Minus, Star, Slash, Percent,
    Eq, EqEq, NotEq, Lt, Le, Gt, Ge, Bang, AndAnd, OrOr, Dot,
    Eof,
}

/// The mathematical value of a token: text payloads as character sequences.
pub enum TokV {
    Int(i64),
    Float(Seq<char>),
    Str(Seq<char>),
    Ident(Seq<char>),
    Let, Var, Fn, If, Else, While, For, In, Return, True, False, Nil,
    Table, Insert, From, Where, Select,
    LParen, RParen, LBrace, RBrace, LBracket, RBracket, Comma, Colon, Arrow, Pipe,
    Plus, Minus, Star, Slash, Percent,
    Eq, EqEq, NotEq, Lt, Le, Gt, Ge, Bang, AndAnd, OrOr, Dot,
    Eof,
}

impl View for Tok {
    type V = TokV;

    open spec fn view(&self) -> TokV {
        match self {
            Tok::Int(n) => TokV::Int(*n),
            Tok::Float(s) => TokV::Float(s@),
            Tok::Str(s) => TokV::Str(s@),
            Tok::Ident(s) => TokV::Ident(s@),
            Tok::Let => TokV::Let,
            Tok::Var => TokV::Var,
            Tok::Fn => TokV::Fn,
            Tok::If => TokV::If,
            Tok::Else => TokV::Else,
            Tok::While => TokV::While,
            Tok::For => TokV::For,
            Tok::In => TokV::In,
            Tok::Return => TokV::Return,
            Tok::True => TokV::True,
            Tok::False => TokV::False,
            Tok::Nil => TokV::Nil,
            Tok::Table => TokV::Table,
            Tok::Insert => TokV::Insert,
            Tok::From => TokV::From,
            Tok::Where => TokV::Where,
            Tok::Select => TokV::Select,
            Tok::LParen => TokV::LParen,
            Tok::RParen => TokV::RParen,
            Tok::LBrace => TokV::LBrace,
            Tok::RBrace => TokV::RBrace,
            Tok::LBracket => TokV::LBracket,
            Tok::RBracket => TokV::RBracket,
            Tok::Comma => TokV::Comma,
            Tok::Colon => TokV::Colon,
            Tok::Arrow => TokV::Arrow,
            Tok::Pipe => TokV::Pipe,
            Tok::Plus => TokV::Plus,
            Tok::Minus => TokV::Minus,
            Tok::Star => TokV::Star,
            Tok::Slash => TokV::Slash,
            Tok::Percent => TokV::Percent,
            Tok::Eq => TokV::Eq,
            Tok::EqEq => TokV::EqEq,
            Tok::NotEq => TokV::NotEq,
            Tok::Lt => TokV::Lt,
            Tok::Le => TokV::Le,
            Tok::Gt => TokV::Gt,
            Tok::Ge => TokV::Ge,
            Tok::Bang => TokV::Bang,
            Tok::AndAnd => TokV::AndAnd,
            Tok::OrOr => TokV::OrOr,
            Tok::Dot => TokV::Dot,
            Tok::Eof => TokV::Eof,
        }
    }
}

/// Position of a token's variant in the declaration order.
pub open spec fn tok_kind(t: TokV) -> u8 {
    match t {
        TokV::Int(_) => 0, TokV::Float(_) => 1, TokV::Str(_) => 2, TokV::Ident(_) => 3,
        TokV::Let => 4, TokV::Var => 5, TokV::Fn => 6, TokV::If => 7, TokV::Else => 8,
        TokV::While => 9, TokV::For => 10, TokV::In => 11, TokV::Return => 12, TokV::True => 13,
        TokV::False => 14, TokV::Nil => 15, TokV::Table => 16, TokV::Insert => 17, TokV::From => 18,
        TokV::Where => 19, TokV::Select => 20, TokV::LParen => 21, TokV::RParen => 22,
        TokV::LBrace => 23, TokV::RBrace => 24, TokV::LBracket => 25, TokV::RBracket => 26,
        TokV::Comma => 27, TokV::Colon => 28, TokV::Arrow => 29, TokV::Pipe => 30, TokV::Plus => 31,
        TokV::Minus => 32, TokV::Star => 33, TokV::Slash => 34, TokV::Percent => 35, TokV::Eq => 36,
        TokV::EqEq => 37, TokV::NotEq => 38, TokV::Lt => 39, TokV::Le => 40, TokV::Gt => 41,
        TokV::Ge => 42, TokV::Bang => 43, TokV::AndAnd => 44, TokV::OrOr => 45, TokV::Dot => 46,
        TokV::Eof => 47,
    }
}

/// A lexical error, with the line on which the offending token starts.
#[derive(Debug, Clone, Copy, PartialEq, Eq)]
pub enum LexError {
    /// `|` not followed by `>` or `|`.
    UnexpectedPipe(usize),
    /// A string literal without its closing quote.
    UnterminatedString(usize),
    /// An escape other than `\n`, `\t`, `\"`, `\\`; carries the byte after the backslash.
    BadEscape(usize, u8),
    /// An integer literal larger than `i64::MAX`.
    IntTooLarge(usize),
    /// A byte that starts no token.
    UnexpectedChar(usize, u8),
}

// ---------------------------------------------------------------------------
// Specification of the lexical structure
// ---------------------------------------------------------------------------

/// The byte at `p`, or 0 past the end (a 0 byte also ends the input).
pub open spec fn peek_at(s: Seq<u8>, p: int) -> u8 {
    if 0 <= p < s.len() { s[p] } else { 0 }
}

pub open spec fn is_ws(b: u8) -> bool {
    b == B_SPACE || b == B_TAB || b == B_CR || b == B_LF
}

pub open spec fn is_digit(b: u8) -> bool {
    48 <= b <= 57
}

pub open spec fn is_alpha(b: u8) -> bool {
    (65 <= b <= 90) || (97 <= b <= 122)
}

pub open spec fn is_ident_start(b: u8) -> bool {
    is_alpha(b) || b == B_UNDERSCORE
}

pub open spec fn is_ident_char(b: u8) -> bool {
    is_alpha(b) || is_digit(b) || b == B_UNDERSCORE
}

/// Where the skipper is: in code, in a `//` comment, or in a `/* */` comment at a depth.
pub enum SkipMode {
    Code,
    Line,
    Block(nat),
}

pub open spec fn mode_rank(m: SkipMode) -> int {
    match m {
        SkipMode::Code => 0,
        _ => 1,
    }
}

/// The position at which whitespace and comments starting at `p` (in mode `m`) end.
/// Block comments nest; an unterminated comment runs to the end of the input.
pub open spec fn skip_end(s: Seq<u8>, p: int, m: SkipMode) -> int
    decreases s.len() - p, mode_rank(m),
{
    if p < 0 || p >= s.len() {
        p
    } else {
        let c = s[p];
        match m {
            SkipMode::Code => {
                if is_ws(c) {
                    skip_end(s, p + 1, SkipMode::Code)
                } else if c == B_SLASH && peek_at(s, p + 1) == B_SLASH {
                    skip_end(s, p + 2, SkipMode::Line)
                } else if c == B_SLASH && peek_at(s, p + 1) == B_STAR {
                    skip_end(s, p + 2, SkipMode::Block(1))
                } else {
                    p
                }
            },
            SkipMode::Line => {
                if c == B_LF || c == B_NUL {
                    skip_end(s, p, SkipMode::Code)
                } else {
                    skip_end(s, p + 1, SkipMode::Line)
                }
            },
            SkipMode::Block(d) => {
                if d == 0 || c == B_NUL {
                    skip_end(s, p, SkipMode::Code)
                } else if c == B_SLASH && peek_at(s, p + 1) == B_STAR {
                    skip_end(s, p + 2, SkipMode::Block(d + 1))
                } else if c == B_STAR && peek_at(s, p + 1) == B_SLASH {
                    skip_end(s, p + 2, SkipMode::Block((d - 1) as nat))
                } else {
                    skip_end(s, p + 1, SkipMode::Block(d))
                }
            },
        }
    }
}

/// The number of newline bytes at positions `a <= i < b` of `s`.
pub open spec fn newlines(s: Seq<u8>, a: int, b: int) -> nat
    decreases b - a,
{
    if b <= a {
        0
    } else {
        newlines(s, a, b - 1) + (if peek_at(s, b - 1) == B_LF { 1nat } else { 0nat })
    }
}

/// The first position at or after `p` that holds neither a digit nor `_`.
pub open spec fn digits_us_end(s: Seq<u8>, p: int) -> int
    decreases s.len() - p,
{
    if 0 <= p < s.len() && (is_digit(s[p]) || s[p] == B_UNDERSCORE) {
        digits_us_end(s, p + 1)
    } else {
        p
    }
}

/// The first position at or after `p` that holds no digit.
pub open spec fn digits_end(s: Seq<u8>, p: int) -> int
    decreases s.len() - p,
{
    if 0 <= p < s.len() && is_digit(s[p]) {
        digits_end(s, p + 1)
    } else {
        p
    }
}

/// The first position at or after `p` that holds no identifier character.
pub open spec fn ident_end(s: Seq<u8>, p: int) -> int
    decreases s.len() - p,
{
    if 0 <= p < s.len() && is_ident_char(s[p]) {
        ident_end(s, p + 1)
    } else {
        p
    }
}

/// The bytes of `b` without underscores.
pub open spec fn strip_us(b: Seq<u8>) -> Seq<u8>
    decreases b.len(),
{
    if b.len() == 0 {
        b
    } else if b.last() == B_UNDERSCORE {
        strip_us(b.drop_last())
    } else {
        strip_us(b.drop_last()).push(b.last())
    }
}

/// Each byte read as the character with that code.
pub open spec fn bytes_as_chars(b: Seq<u8>) -> Seq<char> {
    b.map_values(|x: u8| x as char)
}

/// The decimal value of a sequence of digit bytes.
pub open spec fn dec_value(d: Seq<u8>) -> nat
    decreases d.len(),
{
    if d.len() == 0 {
        0
    } else {
        dec_value(d.drop_last()) * 10 + ((d.last() - 48) as nat)
    }
}

/// The outcome of scanning a string body.
pub enum StrScan {
    Done(Seq<char>),
    Unterminated,
    BadEscape(u8),
}

/// Scans a string literal body from `p` (just after the opening quote), having read `acc`.
/// Returns the outcome and the position after the last byte consumed.
pub open spec fn scan_str(s: Seq<u8>, p: int, acc: Seq<char>) -> (StrScan, int)
    decreases s.len() - p,
{
    if p < 0 || p >= s.len() || s[p] == B_NUL {
        (StrScan::Unterminated, p + 1)
    } else if s[p] == B_QUOTE {
        (StrScan::Done(acc), p + 1)
    } else if s[p] == B_BACKSLASH {
        let e = peek_at(s, p + 1);
        if e == 110 {
            scan_str(s, p + 2, acc.push('\n'))
        } else if e == 116 {
            scan_str(s, p + 2, acc.push('\t'))
        } else if e == B_QUOTE {
            scan_str(s, p + 2, acc.push('"'))
        } else if e == B_BACKSLASH {
            scan_str(s, p + 2, acc.push('\\'))
        } else {
            (StrScan::BadEscape(e), p + 2)
        }
    } else {
        scan_str(s, p + 1, acc.push(s[p] as char))
    }
}

pub open spec fn word_is(w: Seq<u8>, k: Seq<char>) -> bool {
    bytes_as_chars(w) =~= k
}

/// The token for an identifier-shaped word: a keyword or an identifier.
pub open spec fn word_token(w: Seq<u8>) -> TokV {
    if word_is(w, seq!['l', 'e', 't']) { TokV::Let }
    else if word_is(w, seq!['v', 'a', 'r']) { TokV::Var }
    else if word_is(w, seq!['f', 'n']) { TokV::Fn }
    else if word_is(w, seq!['i', 'f']) { TokV::If }
    else if word_is(w, seq!['e', 'l', 's', 'e']) { TokV::Else }
    else if word_is(w, seq!['w', 'h', 'i', 'l', 'e']) { TokV::While }
    else if word_is(w, seq!['f', 'o', 'r']) { TokV::For }
    else if word_is(w, seq!['t', 'a', 'b', 'l', 'e']) { TokV::Table }
    else if word_is(w, seq!['i', 'n', 's', 'e', 'r', 't']) { TokV::Insert }
    else if word_is(w, seq!['f', 'r', 'o', 'm']) { TokV::From }
    else if word_is(w, seq!['w', 'h', 'e', 'r', 'e']) { TokV::Where }
    else if word_is(w, seq!['s', 'e', 'l', 'e', 'c', 't']) { TokV::Select }
    else if word_is(w, seq!['i', 'n']) { TokV::In }
    else if word_is(w, seq!['r', 'e', 't', 'u', 'r', 'n']) { TokV::Return }
    else if word_is(w, seq!['t', 'r', 'u', 'e']) { TokV::True }
    else if word_is(w, seq!['f', 'a', 'l', 's', 'e']) { TokV::False }
    else if word_is(w, seq!['n', 'i', 'l']) { TokV::Nil }
    else { TokV::Ident(bytes_as_chars(w)) }
}

/// The token (or error) that starts at `q`, given that `q` lies on line `line`,
/// and the position where it ends.
pub open spec fn lex_at(s: Seq<u8>, q: int, line: usize) -> (Result<TokV, LexError>, int) {
    let c = peek_at(s, q);
    let c2 = peek_at(s, q + 1);
    if c == B_NUL { (Ok(TokV::Eof), q) }
    else if c == B_LPAREN { (Ok(TokV::LParen), q + 1) }
    else if c == B_RPAREN { (Ok(TokV::RParen), q + 1) }
    else if c == B_LBRACE { (Ok(TokV::LBrace), q + 1) }
    else if c == B_RBRACE { (Ok(TokV::RBrace), q + 1) }
    else if c == B_LBRACKET { (Ok(TokV::LBracket), q + 1) }
    else if c == B_RBRACKET { (Ok(TokV::RBracket), q + 1) }
    else if c == B_COMMA { (Ok(TokV::Comma), q + 1) }
    else if c == B_DOT { (Ok(TokV::Dot), q + 1) }
    else if c == B_COLON { (Ok(TokV::Colon), q + 1) }
    else if c == B_PLUS { (Ok(TokV::Plus), q + 1) }
    else if c == B_STAR { (Ok(TokV::Star), q + 1) }
    else if c == B_SLASH { (Ok(TokV::Slash), q + 1) }
    else if c == B_PERCENT { (Ok(TokV::Percent), q + 1) }
    else if c == B_MINUS {
        if c2 == B_GT { (Ok(TokV::Arrow), q + 2) } else { (Ok(TokV::Minus), q + 1) }
    } else if c == B_PIPE {
        if c2 == B_GT { (Ok(TokV::Pipe), q + 2) }
        else if c2 == B_PIPE { (Ok(TokV::OrOr), q + 2) }
        else { (Err(LexError::UnexpectedPipe(line)), q + 1) }
    } else if c == B_AMP && c2 == B_AMP {
        (Ok(TokV::AndAnd), q + 2)
    } else if c == B_EQ {
        if c2 == B_EQ { (Ok(TokV::EqEq), q + 2) } else { (Ok(TokV::Eq), q + 1) }
    } else if c == B_BANG {
        if c2 == B_EQ { (Ok(TokV::NotEq), q + 2) } else { (Ok(TokV::Bang), q + 1) }
    } else if c == B_LT {
        if c2 == B_EQ { (Ok(TokV::Le), q + 2) } else { (Ok(TokV::Lt), q + 1) }
    } else if c == B_GT {
        if c2 == B_EQ { (Ok(TokV::Ge), q + 2) } else { (Ok(TokV::Gt), q + 1) }
    } else if c == B_QUOTE {
        let (r, e) = scan_str(s, q + 1, Seq::empty());
        match r {
            StrScan::Done(t) => (Ok(TokV::Str(t)), e),
            StrScan::Unterminated => (Err(LexError::UnterminatedString(line)), e),
            StrScan::BadEscape(b) => (Err(LexError::BadEscape(line, b)), e),
        }
    } else if is_digit(c) {
        let r = digits_us_end(s, q);
        if peek_at(s, r) == B_DOT && is_digit(peek_at(s, r + 1)) {
            let e = digits_end(s, r + 1);
            (Ok(TokV::Float(bytes_as_chars(strip_us(s.subrange(q, e))))), e)
        } else {
            let v = dec_value(strip_us(s.subrange(q, r)));
            if v <= i64::MAX {
                (Ok(TokV::Int(v as i64)), r)
            } else {
                (Err(LexError::IntTooLarge(line)), r)
            }
        }
    } else if is_ident_start(c) {
        let e = ident_end(s, q);
        (Ok(word_token(s.subrange(q, e))), e)
    } else {
        (Err(LexError::UnexpectedChar(line, c)), q)
    }
}

/// One lexing step from `p` on line `line`: skip whitespace and comments, then lex
/// the token there. Gives the token (or error), its end, and the line at the end.
pub open spec fn step(s: Seq<u8>, p: int, line: usize) -> (Result<TokV, LexError>, int, int) {
    let q = skip_end(s, p, SkipMode::Code);
    let tline = line + newlines(s, p, q);
    let (r, e) = lex_at(s, q, tline as usize);
    (r, e, tline + newlines(s, q, e))
}

// ---------------------------------------------------------------------------
// The lexer
// ---------------------------------------------------------------------------

pub struct Lexer<'a> {
    src: &'a [u8],
    pos: usize,
    pub line: usize,
}

impl<'a> Lexer<'a> {
    /// The source bytes.
    pub closed spec fn bytes(&self) -> Seq<u8> {
        self.src@
    }

    /// The current position in the source.
    pub closed spec fn position(&self) -> int {
        self.pos as int
    }

    /// The current line number.
    pub closed spec fn cur_line(&self) -> usize {
        self.line
    }

    /// A lexer's position never runs more than one byte past the end.
    pub closed spec fn wf(&self) -> bool {
        &&& self.pos <= self.src@.len() + 1
        &&& self.src@.len() <= isize::MAX
    }

    pub fn new(src: &'a str) -> (l: Self)
        requires
            src.spec_bytes().len() <= isize::MAX,
        ensures
            l.wf(),
            l.bytes() == src.spec_bytes(),
            l.position() == 0,
            l.cur_line() == 1,
    {
        Lexer { src: src.as_bytes(), pos: 0, line: 1 }
    }

    fn peek(&self) -> (c: u8)
        ensures
            c == peek_at(self.src@, self.pos as int),
    {
        if self.pos < self.src.len() {
            self.src[self.pos]
        } else {
            0
        }
    }

    fn peek2(&self) -> (c: u8)
        requires
            self.wf(),
        ensures
            c == peek_at(self.src@, self.pos + 1),
    {
        if self.pos < self.src.len() && self.pos + 1 < self.src.len() {
            self.src[self.pos + 1]
        } else {
            0
        }
    }

    fn bump(&mut self) -> (c: u8)
        requires
            old(self).pos <= old(self).src@.len(),
            old(self).src@.len() <= isize::MAX,
            old(self).line < usize::MAX,
        ensures
            c == peek_at(old(self).src@, old(self).pos as int),
            final(self).src == old(self).src,
            final(self).pos == old(self).pos + 1,
            final(self).line == old(self).line + newlines(
                old(self).src@,
                old(self).pos as int,
                old(self).pos + 1,
            ),
    {
        let c = self.peek();
        assert(newlines(self.src@, self.pos as int, self.pos as int) == 0);
        self.pos = self.pos + 1;
        if c == B_LF {
            self.line = self.line + 1;
        }
        c
    }

    proof fn lemma_newlines_split(s: Seq<u8>, a: int, b: int, c: int)
        requires
            a <= b <= c,
        ensures
            newlines(s, a, c) == newlines(s, a, b) + newlines(s, b, c),
        decreases c - b,
    {
        if c > b {
            Self::lemma_newlines_split(s, a, b, c - 1);
        }
    }

    proof fn lemma_newlines_bound(s: Seq<u8>, a: int, b: int)
        requires
            a <= b,
        ensures
            newlines(s, a, b) <= b - a,
        decreases b - a,
    {
        if b > a {
            Self::lemma_newlines_bound(s, a, b - 1);
        }
    }

    proof fn lemma_skip_bounds(s: Seq<u8>, p: int, m: SkipMode)
        requires
            0 <= p,
        ensures
            p <= skip_end(s, p, m),
            p <= s.len() ==> skip_end(s, p, m) <= s.len(),
            skip_end(s, p, m) < s.len() ==> !is_ws(s[skip_end(s, p, m)]),
        decreases s.len() - p, mode_rank(m),
    {
        if p < s.len() {
            let c = s[p];
            match m {
                SkipMode::Code => {
                    if is_ws(c) {
                        Self::lemma_skip_bounds(s, p + 1, SkipMode::Code);
                    } else if c == B_SLASH && peek_at(s, p + 1) == B_SLASH {
                        Self::lemma_skip_bounds(s, p + 2, SkipMode::Line);
                    } else if c == B_SLASH && peek_at(s, p + 1) == B_STAR {
                        Self::lemma_skip_bounds(s, p + 2, SkipMode::Block(1));
                    }
                },
                SkipMode::Line => {
                    if c == B_LF || c == B_NUL {
                        Self::lemma_skip_bounds(s, p, SkipMode::Code);
                    } else {
                        Self::lemma_skip_bounds(s, p + 1, SkipMode::Line);
                    }
                },
                SkipMode::Block(d) => {
                    if d == 0 || c == B_NUL {
                        Self::lemma_skip_bounds(s, p, SkipMode::Code);
                    } else if c == B_SLASH && peek_at(s, p + 1) == B_STAR {
                        Self::lemma_skip_bounds(s, p + 2, SkipMode::Block(d + 1));
                    } else if c == B_STAR && peek_at(s, p + 1) == B_SLASH {
                        Self::lemma_skip_bounds(s, p + 2, SkipMode::Block((d - 1) as nat));
                    } else {
                        Self::lemma_skip_bounds(s, p + 1, SkipMode::Block(d));
                    }
                },
            }
        }
    }

    fn skip_ws_and_comments(&mut self)
        requires
            old(self).wf(),
            old(self).line + old(self).src@.len() - old(self).pos < usize::MAX,
        ensures
            final(self).wf(),
            final(self).src == old(self).src,
            final(self).pos == skip_end(old(self).src@, old(self).pos as int, SkipMode::Code),
            final(self).line == old(self).line + newlines(
                old(self).src@,
                old(self).pos as int,
                final(self).pos as int,
            ),
    {
        let ghost s = self.src@;
        let ghost p0 = self.pos as int;
        let ghost l0 = self.line;
        if self.pos > self.src.len() {
            return;
        }
        proof {
            Self::lemma_skip_bounds(s, p0, SkipMode::Code);
        }
        let ghost target = skip_end(s, p0, SkipMode::Code);
        loop
            invariant_except_break
                self.src@ == s,
                0 <= p0 <= self.pos <= s.len(),
                self.line == l0 + newlines(s, p0, self.pos as int),
                l0 + s.len() - p0 < usize::MAX,
                s.len() <= isize::MAX,
                skip_end(s, self.pos as int, SkipMode::Code) == target,
            ensures
                self.src@ == s,
                self.pos == target,
                self.pos <= s.len(),
                self.line == l0 + newlines(s, p0, self.pos as int),
            decreases s.len() - self.pos,
        {
            proof {
                Self::lemma_newlines_bound(s, p0, self.pos as int);
                Self::lemma_newlines_split(s, p0, self.pos as int, self.pos as int + 1);
            }
            let ghost start = self.pos;
            let c = self.peek();
            let c2 = self.peek2();
            if c == B_SPACE || c == B_TAB || c == B_CR || c == B_LF {
                self.bump();
            } else if c == B_SLASH && c2 == B_SLASH {
                self.bump();
                proof {
                    Self::lemma_newlines_split(s, p0, self.pos as int, self.pos as int + 1);
                }
                self.bump();
                while self.peek() != B_LF && self.peek() != B_NUL
                    invariant
                        self.src@ == s,
                        0 <= p0 <= self.pos <= s.len(),
                        self.line == l0 + newlines(s, p0, self.pos as int),
                        l0 + s.len() - p0 < usize::MAX,
                        s.len() <= isize::MAX,
                        skip_end(s, self.pos as int, SkipMode::Line) == target,
                        self.pos > start,
                    decreases s.len() - self.pos,
                {
                    proof {
                        Self::lemma_newlines_bound(s, p0, self.pos as int);
                        Self::lemma_newlines_split(s, p0, self.pos as int, self.pos as int + 1);
                    }
                    self.bump();
                }
            } else if c == B_SLASH && c2 == B_STAR {
                self.bump();
                proof {
                    Self::lemma_newlines_bound(s, p0, self.pos as int);
                    Self::lemma_newlines_split(s, p0, self.pos as int, self.pos as int + 1);
                }
                self.bump();
                let mut depth: usize = 1;
                while depth > 0 && self.peek() != B_NUL
                    invariant
                        self.src@ == s,
                        0 <= p0 <= self.pos <= s.len(),
                        self.line == l0 + newlines(s, p0, self.pos as int),
                        l0 + s.len() - p0 < usize::MAX,
                        s.len() <= isize::MAX,
                        depth <= self.pos,
                        self.pos > start,
                        skip_end(s, self.pos as int, SkipMode::Block(depth as nat)) == target,
                    decreases s.len() - self.pos,
                {
                    proof {
                        Self::lemma_newlines_bound(s, p0, self.pos as int);
                        Self::lemma_newlines_bound(s, p0, self.pos as int + 1);
                        Self::lemma_newlines_split(s, p0, self.pos as int, self.pos as int + 1);
                        Self::lemma_newlines_split(s, p0, self.pos as int + 1, self.pos as int + 2);
                    }
                    if self.peek() == B_SLASH && self.peek2() == B_STAR {
                        depth = depth + 1;
                        self.bump();
                    } else if self.peek() == B_STAR && self.peek2() == B_SLASH {
                        depth = depth - 1;
                        self.bump();
                    }
                    self.bump();
                }
                assert(skip_end(s, self.pos as int, SkipMode::Code) == target);
            } else {
                break;
            }
        }
    }

    /// The bytes `src[a..b]`, each read as a character.
    fn text_of(&self, a: usize, b: usize) -> (t: String)
        requires
            a <= b <= self.src@.len(),
        ensures
            t@ == bytes_as_chars(self.src@.subrange(a as int, b as int)),
    {
        let mut t = String::new();
        let mut i = a;
        while i < b
            invariant
                a <= i <= b <= self.src@.len(),
                t@ == bytes_as_chars(self.src@.subrange(a as int, i as int)),
            decreases b - i,
        {
            let ghost before = self.src@.subrange(a as int, i as int);
            assert(self.src@.subrange(a as int, i + 1) =~= before.push(self.src@[i as int]));
            push_char(&mut t, self.src[i] as char);
            i = i + 1;
        }
        t
    }

    /// The bytes `src[a..b]` without underscores, each read as a character.
    fn text_without_underscores(&self, a: usize, b: usize) -> (t: String)
        requires
            a <= b <= self.src@.len(),
        ensures
            t@ == bytes_as_chars(strip_us(self.src@.subrange(a as int, b as int))),
    {
        let mut t = String::new();
        let mut i = a;
        while i < b
            invariant
                a <= i <= b <= self.src@.len(),
                t@ == bytes_as_chars(strip_us(self.src@.subrange(a as int, i as int))),
            decreases b - i,
        {
            let ghost before = self.src@.subrange(a as int, i as int);
            assert(self.src@.subrange(a as int, i + 1).drop_last() =~= before);
            let c = self.src[i];
            if c != B_UNDERSCORE {
                assert(bytes_as_chars(strip_us(before).push(c)) =~= bytes_as_chars(
                    strip_us(before),
                ).push(c as char));
                push_char(&mut t, c as char);
            }
            i = i + 1;
        }
        t
    }

    /// The value of the digits in `src[a..b]` (underscores skipped), or `None` past `i64::MAX`.
    fn int_value(&self, a: usize, b: usize) -> (v: Option<i64>)
        requires
            a <= b <= self.src@.len(),
            forall|k: int| a <= k < b ==> is_digit(self.src@[k]) || self.src@[k] == B_UNDERSCORE,
        ensures
            match v {
                Some(n) => n == dec_value(strip_us(self.src@.subrange(a as int, b as int))),
                None => dec_value(strip_us(self.src@.subrange(a as int, b as int))) > i64::MAX,
            },
    {
        let mut val: i64 = 0;
        let mut overflow = false;
        let mut i = a;
        while i < b
            invariant
                a <= i <= b <= self.src@.len(),
                forall|k: int| a <= k < b ==> is_digit(self.src@[k]) || self.src@[k] == B_UNDERSCORE,
                0 <= val,
                !overflow ==> val == dec_value(strip_us(self.src@.subrange(a as int, i as int))),
                overflow ==> dec_value(strip_us(self.src@.subrange(a as int, i as int))) > i64::MAX,
            decreases b - i,
        {
            let ghost before = self.src@.subrange(a as int, i as int);
            assert(self.src@.subrange(a as int, i + 1).drop_last() =~= before);
            let c = self.src[i];
            if c != B_UNDERSCORE {
                let d: i64 = (c - 48) as i64;
                let ghost old_v = dec_value(strip_us(before));
                assert(strip_us(before).push(c).drop_last() =~= strip_us(before));
                assert(dec_value(strip_us(before).push(c)) == old_v * 10 + d);
                if !overflow {
                    if val > (i64::MAX - d) / 10 {
                        overflow = true;
                        assert(old_v * 10 + d > i64::MAX) by (nonlinear_arith)
                            requires
                                old_v > (i64::MAX - d) / 10,
                                0 <= d <= 9,
                        ;
                    } else {
                        assert(val * 10 + d <= i64::MAX) by (nonlinear_arith)
                            requires
                                val <= (i64::MAX - d) / 10,
                                0 <= d <= 9,
                                0 <= val,
                        ;
                        val = val * 10 + d;
                    }
                } else {
                    assert(old_v * 10 + d >= old_v) by (nonlinear_arith)
                        requires
                            old_v >= 0,
                            d >= 0,
                    ;
                }
            }
            i = i + 1;
        }
        if overflow {
            None
        } else {
            Some(val)
        }
    }

    /// Keyword or identifier for `src[a..b]`.
    fn word(&self, a: usize, b: usize) -> (t: Tok)
        requires
            a <= b <= self.src@.len(),
        ensures
            t@ == word_token(self.src@.subrange(a as int, b as int)),
    {
        let w = self.text_of(a, b);
        let ghost ws = self.src@.subrange(a as int, b as int);
        let wc = crate::text::chars_of(w.as_str());
        let wv = wc.as_slice();
        if crate::text::chars_eq(wv, &['l', 'e', 't']) { Tok::Let }
        else if crate::text::chars_eq(wv, &['v', 'a', 'r']) { Tok::Var }
        else if crate::text::chars_eq(wv, &['f', 'n']) { Tok::Fn }
        else if crate::text::chars_eq(wv, &['i', 'f']) { Tok::If }
        else if crate::text::chars_eq(wv, &['e', 'l', 's', 'e']) { Tok::Else }
        else if crate::text::chars_eq(wv, &['w', 'h', 'i', 'l', 'e']) { Tok::While }
        else if crate::text::chars_eq(wv, &['f', 'o', 'r']) { Tok::For }
        else if crate::text::chars_eq(wv, &['t', 'a', 'b', 'l', 'e']) { Tok::Table }
        else if crate::text::chars_eq(wv, &['i', 'n', 's', 'e', 'r', 't']) { Tok::Insert }
        else if crate::text::chars_eq(wv, &['f', 'r', 'o', 'm']) { Tok::From }
        else if crate::text::chars_eq(wv, &['w', 'h', 'e', 'r', 'e']) { Tok::Where }
        else if crate::text::chars_eq(wv, &['s', 'e', 'l', 'e', 'c', 't']) { Tok::Select }
        else if crate::text::chars_eq(wv, &['i', 'n']) { Tok::In }
        else if crate::text::chars_eq(wv, &['r', 'e', 't', 'u', 'r', 'n']) { Tok::Return }
        else if crate::text::chars_eq(wv, &['t', 'r', 'u', 'e']) { Tok::True }
        else if crate::text::chars_eq(wv, &['f', 'a', 'l', 's', 'e']) { Tok::False }
        else if crate::text::chars_eq(wv, &['n', 'i', 'l']) { Tok::Nil }
        else { Tok::Ident(w) }
    }

    proof fn lemma_scan_str_end(s: Seq<u8>, p: int, acc: Seq<char>)
        requires
            0 <= p,
        ensures
            scan_str(s, p, acc).1 >= p + 1,
            p <= s.len() ==> scan_str(s, p, acc).1 <= s.len() + 1,
        decreases s.len() - p,
    {
        if p < s.len() && s[p] != B_NUL && s[p] != B_QUOTE {
            if s[p] == B_BACKSLASH {
                let e = peek_at(s, p + 1);
                if e == 110 || e == 116 || e == B_QUOTE || e == B_BACKSLASH {
                    Self::lemma_scan_str_end(s, p + 2, acc.push(' '));
                    Self::lemma_scan_str_end(s, p + 2, acc.push('\n'));
                    Self::lemma_scan_str_end(s, p + 2, acc.push('\t'));
                    Self::lemma_scan_str_end(s, p + 2, acc.push('"'));
                    Self::lemma_scan_str_end(s, p + 2, acc.push('\\'));
                }
            } else {
                Self::lemma_scan_str_end(s, p + 1, acc.push(s[p] as char));
            }
        }
    }

    proof fn lemma_run_ends(s: Seq<u8>, p: int)
        requires
            0 <= p <= s.len(),
        ensures
            p <= digits_us_end(s, p) <= s.len(),
            p <= digits_end(s, p) <= s.len(),
            p <= ident_end(s, p) <= s.len(),
            forall|k: int| p <= k < digits_us_end(s, p) ==> is_digit(s[k]) || s[k] == B_UNDERSCORE,
            forall|k: int| p <= k < digits_end(s, p) ==> is_digit(s[k]),
            forall|k: int| p <= k < ident_end(s, p) ==> is_ident_char(s[k]),
        decreases s.len() - p,
    {
        if p < s.len() {
            Self::lemma_run_ends(s, p + 1);
        }
    }

    proof fn lemma_no_newlines(s: Seq<u8>, a: int, b: int)
        requires
            0 <= a <= b <= s.len(),
            forall|k: int| a <= k < b ==> s[k] != B_LF,
        ensures
            newlines(s, a, b) == 0,
        decreases b - a,
    {
        if b > a {
            Self::lemma_no_newlines(s, a, b - 1);
        }
    }

    /// Reads a string literal whose opening quote is at the current position.
    fn lex_string(&mut self, line: usize) -> (r: Result<Tok, LexError>)
        requires
            old(self).wf(),
            old(self).pos < old(self).src@.len(),
            old(self).src@[old(self).pos as int] == B_QUOTE,
            old(self).line + old(self).src@.len() - old(self).pos < usize::MAX,
        ensures
            final(self).wf(),
            final(self).src == old(self).src,
            ({
                let (sr, e) = scan_str(old(self).src@, old(self).pos + 1, Seq::empty());
                &&& final(self).pos == e
                &&& final(self).line == old(self).line + newlines(
                    old(self).src@,
                    old(self).pos as int,
                    e,
                )
                &&& match sr {
                    StrScan::Done(t) => r matches Ok(tok) && tok@ == TokV::Str(t),
                    StrScan::Unterminated => r == Err::<Tok, LexError>(
                        LexError::UnterminatedString(line),
                    ),
                    StrScan::BadEscape(b) => r == Err::<Tok, LexError>(
                        LexError::BadEscape(line, b),
                    ),
                }
            }),
    {
        let ghost s = self.src@;
        let ghost q = self.pos as int;
        let ghost l0 = self.line;
        proof {
            Self::lemma_newlines_split(s, q, q, q + 1);
        }
        self.bump();
        let mut acc = String::new();
        let ghost target = scan_str(s, q + 1, Seq::empty());
        proof {
            Self::lemma_scan_str_end(s, q + 1, Seq::empty());
        }
        let mut err: Option<LexError> = None;
        loop
            invariant_except_break
                self.src@ == s,
                self.wf(),
                0 <= q < self.pos <= s.len(),
                self.src == old(self).src,
                self.line == l0 + newlines(s, q, self.pos as int),
                l0 + s.len() - q < usize::MAX,
                scan_str(s, self.pos as int, acc@) == target,
                err is None,
            ensures
                self.src@ == s,
                self.src == old(self).src,
                self.wf(),
                self.line == l0 + newlines(s, q, self.pos as int),
                target.1 == self.pos as int,
                match target.0 {
                    StrScan::Done(t) => err is None && t == acc@,
                    StrScan::Unterminated => err == Some(LexError::UnterminatedString(line)),
                    StrScan::BadEscape(b) => err == Some(LexError::BadEscape(line, b)),
                },
            decreases s.len() - self.pos,
        {
            proof {
                Self::lemma_newlines_bound(s, q, self.pos as int);
                Self::lemma_newlines_split(s, q, self.pos as int, self.pos as int + 1);
                Self::lemma_newlines_split(s, q, self.pos as int + 1, self.pos as int + 2);
            }
            let ghost pb = self.pos as int;
            let ghost acc0 = acc@;
            let b = self.bump();
            if b == B_NUL {
                assert(scan_str(s, pb, acc0) == (StrScan::Unterminated, pb + 1));
                err = Some(LexError::UnterminatedString(line));
                break;
            } else if b == B_QUOTE {
                break;
            } else if b == B_BACKSLASH {
                let e = self.bump();
                if e == 110 {
                    push_char(&mut acc, '\n');
                } else if e == 116 {
                    push_char(&mut acc, '\t');
                } else if e == B_QUOTE {
                    push_char(&mut acc, '"');
                } else if e == B_BACKSLASH {
                    push_char(&mut acc, '\\');
                } else {
                    assert(scan_str(s, pb, acc0) == (StrScan::BadEscape(e), pb + 2));
                    err = Some(LexError::BadEscape(line, e));
                    break;
                }
            } else {
                push_char(&mut acc, b as char);
            }
        }
        match err {
            Some(x) => Err(x),
            None => Ok(Tok::Str(acc)),
        }
    }

    /// Reads an integer or float literal whose first digit is at the current position.
    fn lex_number(&mut self, line: usize) -> (r: Result<Tok, LexError>)
        requires
            old(self).wf(),
            old(self).pos < old(self).src@.len(),
            is_digit(old(self).src@[old(self).pos as int]),
            old(self).line < usize::MAX,
        ensures
            final(self).wf(),
            final(self).src == old(self).src,
            final(self).line == old(self).line,
            old(self).pos < final(self).pos <= final(self).src@.len(),
            newlines(old(self).src@, old(self).pos as int, final(self).pos as int) == 0,
            ({
                let s = old(self).src@;
                let q = old(self).pos as int;
                let rr = digits_us_end(s, q);
                if peek_at(s, rr) == B_DOT && is_digit(peek_at(s, rr + 1)) {
                    let e = digits_end(s, rr + 1);
                    &&& final(self).pos == e
                    &&& r matches Ok(tok) && tok@ == TokV::Float(
                        bytes_as_chars(strip_us(s.subrange(q, e))),
                    )
                } else {
                    let v = dec_value(strip_us(s.subrange(q, rr)));
                    &&& final(self).pos == rr
                    &&& if v <= i64::MAX {
                        r matches Ok(tok) && tok@ == TokV::Int(v as i64)
                    } else {
                        r == Err::<Tok, LexError>(LexError::IntTooLarge(line))
                    }
                }
            }),
    {
        let ghost s = self.src@;
        let ghost q = self.pos as int;
        let ghost l0 = self.line;
        let start = self.pos;
        proof {
            Self::lemma_run_ends(s, q);
            Self::lemma_newlines_split(s, q, q, q);
        }
        while self.pos < self.src.len() && ((48 <= self.src[self.pos] && self.src[self.pos] <= 57)
            || self.src[self.pos] == B_UNDERSCORE)
            invariant
                self.src@ == s,
                self.wf(),
                0 <= q <= self.pos <= s.len(),
                start == q,
                l0 < usize::MAX,
                digits_us_end(s, self.pos as int) == digits_us_end(s, q),
                self.line == l0,
                forall|k: int| q <= k < self.pos ==> is_digit(s[k]) || s[k] == B_UNDERSCORE,
            decreases s.len() - self.pos,
        {
            proof {
                Self::lemma_no_newlines(s, self.pos as int, self.pos as int + 1);
            }
            self.bump();
        }
        let r = self.pos;
        assert(r as int == digits_us_end(s, q));
        if self.peek() == B_DOT && 48 <= self.peek2() && self.peek2() <= 57 {
            proof {
                Self::lemma_run_ends(s, r + 1);
                Self::lemma_no_newlines(s, r as int, r + 1);
            }
            self.bump();
            assert(forall|k: int| q <= k < self.pos ==> s[k] != B_LF);
            while self.pos < self.src.len() && 48 <= self.src[self.pos] && self.src[self.pos] <= 57
                invariant
                    self.src@ == s,
                    self.wf(),
                    r < self.pos <= s.len(),
                    digits_end(s, self.pos as int) == digits_end(s, r + 1),
                    self.line == l0,
                    l0 < usize::MAX,
                    forall|k: int| q <= k < self.pos ==> s[k] != B_LF,
                decreases s.len() - self.pos,
            {
                proof {
                    Self::lemma_no_newlines(s, self.pos as int, self.pos as int + 1);
                }
                self.bump();
            }
            proof {
                Self::lemma_no_newlines(s, q, self.pos as int);
            }
            Ok(Tok::Float(self.text_without_underscores(start, self.pos)))
        } else {
            proof {
                Self::lemma_run_ends(s, q + 1);
                Self::lemma_no_newlines(s, q, r as int);
            }
            match self.int_value(start, r) {
                Some(n) => Ok(Tok::Int(n)),
                None => Err(LexError::IntTooLarge(line)),
            }
        }
    }

    /// Reads an identifier or keyword whose first character is at the current position.
    fn lex_word(&mut self) -> (t: Tok)
        requires
            old(self).wf(),
            old(self).pos < old(self).src@.len(),
            is_ident_start(old(self).src@[old(self).pos as int]),
            old(self).line < usize::MAX,
        ensures
            final(self).wf(),
            final(self).src == old(self).src,
            final(self).line == old(self).line,
            final(self).pos == ident_end(old(self).src@, old(self).pos as int),
            old(self).pos <= final(self).pos <= final(self).src@.len(),
            newlines(old(self).src@, old(self).pos as int, final(self).pos as int) == 0,
            t@ == word_token(old(self).src@.subrange(old(self).pos as int, final(self).pos as int)),
    {
        let ghost s = self.src@;
        let ghost q = self.pos as int;
        let ghost l0 = self.line;
        let start = self.pos;
        proof {
            Self::lemma_run_ends(s, q);
        }
        while self.pos < self.src.len() && ((65 <= self.src[self.pos] && self.src[self.pos] <= 90)
            || (97 <= self.src[self.pos] && self.src[self.pos] <= 122) || (48 <= self.src[self.pos]
            && self.src[self.pos] <= 57) || self.src[self.pos] == B_UNDERSCORE)
            invariant
                self.src@ == s,
                self.wf(),
                0 <= q <= self.pos <= s.len(),
                start == q,
                l0 < usize::MAX,
                ident_end(s, self.pos as int) == ident_end(s, q),
                self.line == l0,
                forall|k: int| q <= k < self.pos ==> is_ident_char(s[k]),
            decreases s.len() - self.pos,
        {
            proof {
                Self::lemma_no_newlines(s, self.pos as int, self.pos as int + 1);
            }
            self.bump();
        }
        proof {
            Self::lemma_no_newlines(s, q, self.pos as int);
        }
        self.word(start, self.pos)
    }

    /// Skips whitespace and comments, then reads the next token.
    pub fn next_tok(&mut self) -> (r: Result<Tok, LexError>)
        requires
            old(self).wf(),
            old(self).cur_line() + old(self).bytes().len() - old(self).position() < usize::MAX,
        ensures
            final(self).wf(),
            final(self).bytes() == old(self).bytes(),
            ({
                let (sr, e, l) = step(old(self).bytes(), old(self).position(), old(self).cur_line());
                &&& final(self).position() == e
                &&& final(self).cur_line() == l
                &&& match r {
                    Ok(t) => sr == Ok::<TokV, LexError>(t@),
                    Err(x) => sr == Err::<TokV, LexError>(x),
                }
            }),
            final(self).cur_line() + final(self).bytes().len() - final(self).position()
                <= old(self).cur_line() + old(self).bytes().len() - old(self).position(),
    {
        let ghost s = self.src@;
        let ghost p0 = self.pos as int;
        let ghost l0 = self.line;
        self.skip_ws_and_comments();
        let line = self.line;
        let ghost q = self.pos as int;
        proof {
            if p0 <= s.len() {
                Self::lemma_skip_bounds(s, p0, SkipMode::Code);
            }
            Self::lemma_newlines_bound(s, p0, q);
        }
        if self.pos > self.src.len() {
            assert(newlines(s, q, q) == 0);
            return Ok(Tok::Eof);
        }
        proof {
            Self::lemma_newlines_split(s, q, q + 1, q + 2);
            Self::lemma_newlines_bound(s, q, q + 2);
            Self::lemma_newlines_bound(s, q, q + 1);
            if q < s.len() {
                Self::lemma_no_newlines(s, q, q + 1);
            }
            if q + 1 < s.len() && s[q + 1] != B_LF {
                Self::lemma_no_newlines(s, q, q + 2);
            }
        }
        let c = self.peek();
        let c2 = self.peek2();
        if c == B_NUL {
            assert(newlines(s, q, q) == 0);
            return Ok(Tok::Eof);
        }
        if c == B_QUOTE {
            let r = self.lex_string(line);
            proof {
                let e = scan_str(s, q + 1, Seq::empty()).1;
                Self::lemma_scan_str_end(s, q + 1, Seq::empty());
                Self::lemma_newlines_bound(s, q, e);
            }
            return r;
        }
        if 48 <= c && c <= 57 {
            let r = self.lex_number(line);
            return r;
        }
        if (65 <= c && c <= 90) || (97 <= c && c <= 122) || c == B_UNDERSCORE {
            let t = self.lex_word();
            return Ok(t);
        }
        let t = if c == B_LPAREN { self.bump(); Tok::LParen }
        else if c == B_RPAREN { self.bump(); Tok::RParen }
        else if c == B_LBRACE { self.bump(); Tok::LBrace }
        else if c == B_RBRACE { self.bump(); Tok::RBrace }
        else if c == B_LBRACKET { self.bump(); Tok::LBracket }
        else if c == B_RBRACKET { self.bump(); Tok::RBracket }
        else if c == B_COMMA { self.bump(); Tok::Comma }
        else if c == B_DOT { self.bump(); Tok::Dot }
        else if c == B_COLON { self.bump(); Tok::Colon }
        else if c == B_PLUS { self.bump(); Tok::Plus }
        else if c == B_STAR { self.bump(); Tok::Star }
        else if c == B_SLASH { self.bump(); Tok::Slash }
        else if c == B_PERCENT { self.bump(); Tok::Percent }
        else if c == B_MINUS {
            self.bump();
            if self.peek() == B_GT { self.bump(); Tok::Arrow } else { Tok::Minus }
        } else if c == B_PIPE {
            self.bump();
            if self.peek() == B_GT {
                self.bump();
                Tok::Pipe
            } else if self.peek() == B_PIPE {
                self.bump();
                Tok::OrOr
            } else {
                return Err(LexError::UnexpectedPipe(line));
            }
        } else if c == B_AMP && c2 == B_AMP {
            self.bump();
            self.bump();
            Tok::AndAnd
        } else if c == B_EQ {
            self.bump();
            if self.peek() == B_EQ { self.bump(); Tok::EqEq } else { Tok::Eq }
        } else if c == B_BANG {
            self.bump();
            if self.peek() == B_EQ { self.bump(); Tok::NotEq } else { Tok::Bang }
        } else if c == B_LT {
            self.bump();
            if self.peek() == B_EQ { self.bump(); Tok::Le } else { Tok::Lt }
        } else if c == B_GT {
            self.bump();
            if self.peek() == B_EQ { self.bump(); Tok::Ge } else { Tok::Gt }
        } else {
            assert(newlines(s, q, q) == 0);
            return Err(LexError::UnexpectedChar(line, c));
        };
        Ok(t)
    }
}

/// The outcome of lexing everything from `p` on: each token with the line the lexer
/// was on before reading it (before skipping whitespace), ending with `Eof`; or the
/// first error.
pub open spec fn lex_all(s: Seq<u8>, p: int, line: usize) -> Result<Seq<(TokV, usize)>, LexError>
    decreases s.len() + 2 - p,
{
    let (r, e, l) = step(s, p, line);
    match r {
        Err(x) => Err(x),
        Ok(t) => {
            if t is Eof {
                Ok(seq![(t, line)])
            } else if p < e <= s.len() + 1 {
                match lex_all(s, e, l as usize) {
                    Ok(rest) => Ok(seq![(t, line)] + rest),
                    Err(x) => Err(x),
                }
            } else {
                Err(LexError::UnexpectedChar(line, 0))
            }
        },
    }
}

/// Prepends already-read tokens to the outcome of lexing the rest.
pub open spec fn after(pre: Seq<(TokV, usize)>, rest: Result<Seq<(TokV, usize)>, LexError>) -> Result<
    Seq<(TokV, usize)>,
    LexError,
> {
    match rest {
        Ok(v) => Ok(pre + v),
        Err(x) => Err(x),
    }
}

pub open spec fn toks_view(v: Seq<(Tok, usize)>) -> Seq<(TokV, usize)> {
    v.map_values(|x: (Tok, usize)| (x.0@, x.1))
}

impl<'a> Lexer<'a> {
    /// Reads all tokens, each with the line the lexer was on before reading it,
    /// up to and including `Eof`; or the first error.
    pub fn tokenize(self) -> (r: Result<Vec<(Tok, usize)>, LexError>)
        requires
            self.wf(),
            self.cur_line() + self.bytes().len() - self.position() < usize::MAX,
        ensures
            match r {
                Ok(v) => lex_all(self.bytes(), self.position(), self.cur_line()) == Ok::<
                    Seq<(TokV, usize)>,
                    LexError,
                >(toks_view(v@)),
                Err(x) => lex_all(self.bytes(), self.position(), self.cur_line()) == Err::<
                    Seq<(TokV, usize)>,
                    LexError,
                >(x),
            },
    {
        let ghost s = self.src@;
        let ghost p0 = self.pos as int;
        let ghost l0 = self.line;
        let ghost whole = lex_all(s, p0, l0);
        let mut this = self;
        let mut out: Vec<(Tok, usize)> = Vec::new();
        let mut err: Option<LexError> = None;
        loop
            invariant_except_break
                this.wf(),
                this.src@ == s,
                this.line + s.len() - this.pos < usize::MAX,
                whole == after(toks_view(out@), lex_all(s, this.pos as int, this.line)),
                err is None,
            ensures
                match err {
                    Some(x) => whole == Err::<Seq<(TokV, usize)>, LexError>(x),
                    None => whole == Ok::<Seq<(TokV, usize)>, LexError>(toks_view(out@)),
                },
            decreases s.len() + 2 - this.pos,
        {
            let line = this.line;
            let ghost p = this.pos as int;
            let t = this.next_tok();
            match t {
                Err(x) => {
                    assert(lex_all(s, p, line) == Err::<Seq<(TokV, usize)>, LexError>(x));
                    err = Some(x);
                    break;
                },
                Ok(t) => {
                    let done = t.is_eof();
                    let ghost tv = t@;
                    let ghost prev = toks_view(out@);
                    proof {
                        Self::lemma_step_progress(s, p, line);
                    }
                    out.push((t, line));
                    assert(toks_view(out@) =~= prev + seq![(tv, line)]);
                    if done {
                        assert(lex_all(s, p, line) == Ok::<Seq<(TokV, usize)>, LexError>(
                            seq![(tv, line)],
                        ));
                        break;
                    }
                    proof {
                        let rest = lex_all(s, this.pos as int, this.line);
                        match rest {
                            Ok(v) => {
                                assert(prev + (seq![(tv, line)] + v) =~= toks_view(out@) + v);
                            },
                            Err(_) => {},
                        }
                    }
                },
            }
        }
        match err {
            Some(x) => Err(x),
            None => Ok(out),
        }
    }

    proof fn lemma_step_progress(s: Seq<u8>, p: int, line: usize)
        requires
            0 <= p <= s.len() + 1,
        ensures
            ({
                let (r, e, l) = step(s, p, line);
                r matches Ok(t) && !(t is Eof) ==> p < e <= s.len() + 1
            }),
    {
        let q = skip_end(s, p, SkipMode::Code);
        if p <= s.len() {
            Self::lemma_skip_bounds(s, p, SkipMode::Code);
            let c = peek_at(s, q);
            if q < s.len() {
                if c == B_QUOTE {
                    Self::lemma_scan_str_end(s, q + 1, Seq::empty());
                } else if is_digit(c) {
                    Self::lemma_run_ends(s, q + 1);
                    let r = digits_us_end(s, q);
                    assert(r == digits_us_end(s, q + 1));
                    if r + 1 <= s.len() {
                        Self::lemma_run_ends(s, r + 1);
                    }
                } else if is_ident_start(c) {
                    Self::lemma_run_ends(s, q + 1);
                    assert(ident_end(s, q) == ident_end(s, q + 1));
                }
            }
        }
    }
}

impl Tok {
    /// A copy of this token.
    pub fn duplicate(&self) -> (t: Tok)
        ensures
            t == *self,
    {
        match self {
            Tok::Int(n) => Tok::Int(*n),
            Tok::Float(s) => Tok::Float(s.clone()),
            Tok::Str(s) => Tok::Str(s.clone()),
            Tok::Ident(s) => Tok::Ident(s.clone()),
            Tok::Let => Tok::Let,
            Tok::Var => Tok::Var,
            Tok::Fn => Tok::Fn,
            Tok::If => Tok::If,
            Tok::Else => Tok::Else,
            Tok::While => Tok::While,
            Tok::For => Tok::For,
            Tok::In => Tok::In,
            Tok::Return => Tok::Return,
            Tok::True => Tok::True,
            Tok::False => Tok::False,
            Tok::Nil => Tok::Nil,
            Tok::Table => Tok::Table,
            Tok::Insert => Tok::Insert,
            Tok::From => Tok::From,
            Tok::Where => Tok::Where,
            Tok::Select => Tok::Select,
            Tok::LParen => Tok::LParen,
            Tok::RParen => Tok::RParen,
            Tok::LBrace => Tok::LBrace,
            Tok::RBrace => Tok::RBrace,
            Tok::LBracket => Tok::LBracket,
            Tok::RBracket => Tok::RBracket,
            Tok::Comma => Tok::Comma,
            Tok::Colon => Tok::Colon,
            Tok::Arrow => Tok::Arrow,
            Tok::Pipe => Tok::Pipe,
            Tok::Plus => Tok::Plus,
            Tok::Minus => Tok::Minus,
            Tok::Star => Tok::Star,
            Tok::Slash => Tok::Slash,
            Tok::Percent => Tok::Percent,
            Tok::Eq => Tok::Eq,
            Tok::EqEq => Tok::EqEq,
            Tok::NotEq => Tok::NotEq,
            Tok::Lt => Tok::Lt,
            Tok::Le => Tok::Le,
            Tok::Gt => Tok::Gt,
            Tok::Ge => Tok::Ge,
            Tok::Bang => Tok::Bang,
            Tok::AndAnd => Tok::AndAnd,
            Tok::OrOr => Tok::OrOr,
            Tok::Dot => Tok::Dot,
            Tok::Eof => Tok::Eof,
        }
    }

    /// Whether two tokens are the same token (payloads included).
    pub fn same(&self, other: &Tok) -> (b: bool)
        ensures
            b == (self@ == other@),
    {
        match (self, other) {
            (Tok::Int(a), Tok::Int(b)) => *a == *b,
            (Tok::Float(a), Tok::Float(b)) => crate::text::str_eq(a.as_str(), b.as_str()),
            (Tok::Str(a), Tok::Str(b)) => crate::text::str_eq(a.as_str(), b.as_str()),
            (Tok::Ident(a), Tok::Ident(b)) => crate::text::str_eq(a.as_str(), b.as_str()),
            (Tok::Int(_), _) | (Tok::Float(_), _) | (Tok::Str(_), _) | (Tok::Ident(_), _) => false,
            (_, Tok::Int(_)) | (_, Tok::Float(_)) | (_, Tok::Str(_)) | (_, Tok::Ident(_)) => false,
            _ => self.kind_index() == other.kind_index(),
        }
    }

    /// Position of the token's variant in the declaration order.
    pub fn kind_index(&self) -> (k: u8)
        ensures
            k == tok_kind(self@),
    {
        match self {
            Tok::Int(_) => 0, Tok::Float(_) => 1, Tok::Str(_) => 2, Tok::Ident(_) => 3,
            Tok::Let => 4, Tok::Var => 5, Tok::Fn => 6, Tok::If => 7, Tok::Else => 8,
            Tok::While => 9, Tok::For => 10, Tok::In => 11, Tok::Return => 12, Tok::True => 13,
            Tok::False => 14, Tok::Nil => 15, Tok::Table => 16, Tok::Insert => 17, Tok::From => 18,
            Tok::Where => 19, Tok::Select => 20, Tok::LParen => 21, Tok::RParen => 22,
            Tok::LBrace => 23, Tok::RBrace => 24, Tok::LBracket => 25, Tok::RBracket => 26,
            Tok::Comma => 27, Tok::Colon => 28, Tok::Arrow => 29, Tok::Pipe => 30, Tok::Plus => 31,
            Tok::Minus => 32, Tok::Star => 33, Tok::Slash => 34, Tok::Percent => 35, Tok::Eq => 36,
            Tok::EqEq => 37, Tok::NotEq => 38, Tok::Lt => 39, Tok::Le => 40, Tok::Gt => 41,
            Tok::Ge => 42, Tok::Bang => 43, Tok::AndAnd => 44, Tok::OrOr => 45, Tok::Dot => 46,
            Tok::Eof => 47,
        }
    }

    pub fn is_pipe(&self) -> (b: bool)
        ensures
            b == (self@ is Pipe),
    {
        match self {
            Tok::Pipe => true,
            _ => false,
        }
    }

    pub fn is_eof(&self) -> (b: bool)
        ensures
            b == (self@ is Eof),
    {
        match self {
            Tok::Eof => true,
            _ => false,
        }
    }
}

} // verus!
