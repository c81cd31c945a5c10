//! The application server's request handling: routing, the tiny JSON reading and writing it
//! needs, and the IR, map and status payloads. Sockets and files stay with the caller.

use vstd::prelude::*;
use vstd::string::StringSliceAdditionalSpecFns;
use vstd::utf8::encode_utf8;
use crate::ir::{Graph, Node, kind_label};
use crate::lexer::{Lexer, lex_all};
use crate::lower::lowered;
use crate::messages::{lex_error_text, parse_error_text};
use crate::parser::{Parser, Stmt, StmtV, sp_program, stmts_v, strings_v};
use crate::strmap::sorted_keys;
use crate::strs::{find_chars, find_from, find_s, lemma_find_from};
use crate::text::{chars_of, dec_digits, push_char, push_decimal, push_str, str_eq, string_from};

verus! {

/// What a request asks for.
#[derive(Debug, Clone, Copy, PartialEq, Eq, Structural)]
pub enum Endpoint {
    Index,
    Run,
    Ir,
    Status,
    CodeMap,
    NotFound,
}

pub open spec fn route_s(method: Seq<char>, path: Seq<char>) -> Endpoint {
    if method == "GET"@ && path == "/"@ {
        Endpoint::Index
    } else if method == "POST"@ && path == "/run"@ {
        Endpoint::Run
    } else if method == "POST"@ && path == "/ir"@ {
        Endpoint::Ir
    } else if method == "GET"@ && path == "/status"@ {
        Endpoint::Status
    } else if method == "GET"@ && path == "/map"@ {
        Endpoint::CodeMap
    } else {
        Endpoint::NotFound
    }
}

/// The endpoint for a method and path.
pub fn route(method: &str, path: &str) -> (e: Endpoint)
    ensures
        e == route_s(method@, path@),
{
    if str_eq(method, "GET") && str_eq(path, "/") {
        Endpoint::Index
    } else if str_eq(method, "POST") && str_eq(path, "/run") {
        Endpoint::Run
    } else if str_eq(method, "POST") && str_eq(path, "/ir") {
        Endpoint::Ir
    } else if str_eq(method, "GET") && str_eq(path, "/status") {
        Endpoint::Status
    } else if str_eq(method, "GET") && str_eq(path, "/map") {
        Endpoint::CodeMap
    } else {
        Endpoint::NotFound
    }
}

/// The status line and content type answered for an endpoint.
pub open spec fn head_s(e: Endpoint) -> (Seq<char>, Seq<char>) {
    match e {
        Endpoint::Index => ("200 OK"@, "text/html; charset=utf-8"@),
        Endpoint::NotFound => ("404 Not Found"@, "text/plain"@),
        _ => ("200 OK"@, "application/json"@),
    }
}

pub fn endpoint_head(e: Endpoint) -> (r: (&'static str, &'static str))
    ensures
        (r.0@, r.1@) == head_s(e),
{
    match e {
        Endpoint::Index => ("200 OK", "text/html; charset=utf-8"),
        Endpoint::NotFound => ("404 Not Found", "text/plain"),
        _ => ("200 OK", "application/json"),
    }
}

/// The header block of a response with a body of `len` bytes.
pub open spec fn response_head_s(status: Seq<char>, ctype: Seq<char>, len: nat) -> Seq<char> {
    "HTTP/1.1 "@ + status + "\r\nContent-Type: "@ + ctype
        + "\r\nAccess-Control-Allow-Origin: *\r\nContent-Length: "@ + dec_digits(len)
        + "\r\nConnection: close\r\n\r\n"@
}

pub fn response_head(status: &str, ctype: &str, len: usize) -> (s: String)
    ensures
        s@ == response_head_s(status@, ctype@, len as nat),
{
    let mut s = string_from("HTTP/1.1 ");
    push_str(&mut s, status);
    push_str(&mut s, "\r\nContent-Type: ");
    push_str(&mut s, ctype);
    push_str(&mut s, "\r\nAccess-Control-Allow-Origin: *\r\nContent-Length: ");
    push_decimal(&mut s, len as u64);
    push_str(&mut s, "\r\nConnection: close\r\n\r\n");
    s
}

/// The text of a JSON string after an opening quote, with `\n`, `\t` and other backslash
/// escapes undone, up to the closing quote (or the end).
pub open spec fn unescape_s(s: Seq<char>) -> Seq<char>
    decreases s.len(),
{
    if s.len() == 0 {
        Seq::empty()
    } else if s[0] == '\\' {
        if s.len() == 1 {
            Seq::empty()
        } else {
            let c = s[1];
            let o = if c == 'n' {
                '\n'
            } else if c == 't' {
                '\t'
            } else {
                c
            };
            seq![o] + unescape_s(s.skip(2))
        }
    } else if s[0] == '"' {
        Seq::empty()
    } else {
        seq![s[0]] + unescape_s(s.skip(1))
    }
}

/// The `code` field of a small JSON body `{"code":"..."}`, or empty when there is none.
pub open spec fn extract_code_s(body: Seq<char>) -> Seq<char> {
    match find_s(body, "\"code\""@) {
        None => Seq::empty(),
        Some(i) => match find_s(body.skip(i), ":"@) {
            None => Seq::empty(),
            Some(colon) => {
                let rest = body.skip(i + colon + 1);
                match find_s(rest, "\""@) {
                    None => Seq::empty(),
                    Some(start) => unescape_s(rest.skip(start + 1)),
                }
            },
        },
    }
}

fn unescape_from(cs: &[char], from: usize) -> (r: String)
    requires
        from <= cs@.len(),
    ensures
        r@ == unescape_s(cs@.skip(from as int)),
{
    let mut out = String::new();
    let mut i: usize = from;
    let n = cs.len();
    while i < n
        invariant
            from <= i <= n == cs@.len(),
            unescape_s(cs@.skip(from as int)) == out@ + unescape_s(cs@.skip(i as int)),
        ensures
            unescape_s(cs@.skip(from as int)) == out@,
        decreases n - i,
    {
        let c = cs[i];
        assert(cs@.skip(i as int)[0] == c);
        if c == '\\' {
            if i + 1 >= n {
                assert(cs@.skip(i as int).len() == 1);
                assert(unescape_s(cs@.skip(i as int)) =~= Seq::<char>::empty());
                assert(out@ + Seq::<char>::empty() =~= out@);
                break;
            }
            let d = cs[i + 1];
            assert(cs@.skip(i as int)[1] == d);
            let o = if d == 'n' {
                '\n'
            } else if d == 't' {
                '\t'
            } else {
                d
            };
            assert(cs@.skip(i as int).skip(2) =~= cs@.skip(i + 2));
            let ghost before = out@;
            push_char(&mut out, o);
            assert(before + unescape_s(cs@.skip(i as int)) =~= out@ + unescape_s(cs@.skip(i + 2)));
            i = i + 2;
        } else if c == '"' {
            assert(unescape_s(cs@.skip(i as int)) =~= Seq::<char>::empty());
            assert(out@ + Seq::<char>::empty() =~= out@);
            break;
        } else {
            assert(cs@.skip(i as int).skip(1) =~= cs@.skip(i + 1));
            let ghost before = out@;
            push_char(&mut out, c);
            assert(before + unescape_s(cs@.skip(i as int)) =~= out@ + unescape_s(cs@.skip(i + 1)));
            i = i + 1;
        }
        if i >= n {
            assert(cs@.skip(i as int).len() == 0);
            assert(out@ + unescape_s(cs@.skip(i as int)) =~= out@);
        }
    }
    out
}

/// The `code` field of a request body.
pub fn extract_code(body: &str) -> (r: String)
    ensures
        r@ == extract_code_s(body@),
{
    let cs = chars_of(body);
    let q: [char; 6] = ['"', 'c', 'o', 'd', 'e', '"'];
    let colon: [char; 1] = [':'];
    let quote: [char; 1] = ['"'];
    proof {
        reveal_strlit("\"code\"");
        reveal_strlit(":");
        reveal_strlit("\"");
        assert(q@ =~= "\"code\""@);
        assert(colon@ =~= ":"@);
        assert(quote@ =~= "\""@);
    }
    match find_chars(cs.as_slice(), &q) {
        None => String::new(),
        Some(i) => {
            proof {
                lemma_find_from(body@, q@, 0);
            }
            let after = crate::strs::slice_string(cs.as_slice(), i, cs.len());
            let ac = chars_of(after.as_str());
            assert(ac@ =~= body@.skip(i as int));
            match find_chars(ac.as_slice(), &colon) {
                None => String::new(),
                Some(c) => {
                    proof {
                        lemma_find_from(ac@, colon@, 0);
                    }
                    let rest = crate::strs::slice_string(cs.as_slice(), i + c + 1, cs.len());
                    let rc = chars_of(rest.as_str());
                    assert(rc@ =~= body@.skip(i + c + 1));
                    match find_chars(rc.as_slice(), &quote) {
                        None => String::new(),
                        Some(st) => {
                            proof {
                                lemma_find_from(rc@, quote@, 0);
                            }
                            unescape_from(rc.as_slice(), st + 1)
                        },
                    }
                },
            }
        },
    }
}

/// One character as it appears inside a JSON string.
pub open spec fn json_char(c: char) -> Seq<char> {
    if c == '"' {
        seq!['\\', '"']
    } else if c == '\\' {
        seq!['\\', '\\']
    } else if c == '\n' {
        seq!['\\', 'n']
    } else if c == '\t' {
        seq!['\\', 't']
    } else if c == '\r' {
        Seq::empty()
    } else {
        seq![c]
    }
}

/// A text escaped for a JSON string: quotes, backslashes, newlines and tabs escaped,
/// carriage returns dropped.
pub open spec fn json_escape_s(s: Seq<char>) -> Seq<char>
    decreases s.len(),
{
    if s.len() == 0 {
        Seq::empty()
    } else {
        json_escape_s(s.drop_last()) + json_char(s.last())
    }
}

pub fn json_escape(s: &str) -> (r: String)
    ensures
        r@ == json_escape_s(s@),
{
    let cs = chars_of(s);
    let mut o = String::new();
    let mut i: usize = 0;
    assert(s@.take(0) =~= Seq::<char>::empty());
    while i < cs.len()
        invariant
            i <= cs@.len(),
            cs@ == s@,
            o@ == json_escape_s(s@.take(i as int)),
        decreases cs.len() - i,
    {
        let c = cs[i];
        assert(s@.take(i + 1).drop_last() =~= s@.take(i as int));
        assert(s@.take(i + 1).last() == c);
        let ghost before = o@;
        if c == '"' {
            push_char(&mut o, '\\');
            push_char(&mut o, '"');
        } else if c == '\\' {
            push_char(&mut o, '\\');
            push_char(&mut o, '\\');
        } else if c == '\n' {
            push_char(&mut o, '\\');
            push_char(&mut o, 'n');
        } else if c == '\t' {
            push_char(&mut o, '\\');
            push_char(&mut o, 't');
        } else if c == '\r' {
        } else {
            push_char(&mut o, c);
        }
        assert(o@ =~= before + json_char(c));
        i = i + 1;
    }
    assert(s@.take(cs@.len() as int) =~= s@);
    o
}


/// The result of lexing and parsing a program: its statements, or the error's message.
pub open spec fn compile_s(code: Seq<char>) -> Result<Seq<StmtV>, Seq<char>> {
    match lex_all(encode_utf8(code), 0, 1) {
        Err(e) => Err(lex_error_text(e)),
        Ok(ts) => match sp_program(ts, 0, Seq::empty()) {
            Ok(st) => Ok(st),
            Err(pe) => Err(parse_error_text(pe)),
        },
    }
}

proof fn lemma_lex_all_ends_eof(s: Seq<u8>, p: int, line: usize)
    ensures
        match lex_all(s, p, line) {
            Ok(v) => v.len() > 0 && v.last().0 is Eof,
            Err(_) => true,
        },
    decreases s.len() + 2 - p,
{
    let (r, e, l) = crate::lexer::step(s, p, line);
    match r {
        Ok(t) => {
            if !(t is Eof) && p < e <= s.len() + 1 {
                lemma_lex_all_ends_eof(s, e, l as usize);
                match lex_all(s, e, l as usize) {
                    Ok(rest) => {
                        assert((seq![(t, line)] + rest).last() == rest.last());
                    },
                    Err(_) => {},
                }
            }
        },
        Err(_) => {},
    }
}

/// Lexes and parses a program.
pub fn parse_source(code: &str) -> (r: Result<Vec<Stmt>, String>)
    requires
        code.spec_bytes().len() < isize::MAX,
    ensures
        match r {
            Ok(v) => compile_s(code@) == Ok::<Seq<StmtV>, Seq<char>>(stmts_v(v@)),
            Err(m) => compile_s(code@) == Err::<Seq<StmtV>, Seq<char>>(m@),
        },
{
    let lx = Lexer::new(code);
    proof {
        lemma_lex_all_ends_eof(code.spec_bytes(), 0, 1);
    }
    match lx.tokenize() {
        Err(e) => Err(e.message()),
        Ok(toks) => {
            assert(toks@.last().0@ is Eof) by {
                assert(crate::lexer::toks_view(toks@).last().0 == toks@.last().0@);
            }
            let mut p = Parser::new(toks);
            match p.parse_program() {
                Ok(st) => Ok(st),
                Err(pe) => Err(pe.message()),
            }
        },
    }
}

/// The first eight characters of an id (all of it if shorter).
pub open spec fn short_s(s: Seq<char>) -> Seq<char> {
    if s.len() < 8 {
        s
    } else {
        s.take(8)
    }
}

/// A short id in quotes.
pub open spec fn quoted_short(s: Seq<char>) -> Seq<char> {
    "\""@ + short_s(s) + "\""@
}

/// A node's label: its name, operator, value or binding, the first it has.
pub open spec fn label_s(n: Node) -> Seq<char> {
    let a = n.attrs.map();
    if a.dom().contains("name"@) {
        a["name"@]@
    } else if a.dom().contains("op"@) {
        a["op"@]@
    } else if a.dom().contains("value"@) {
        a["value"@]@
    } else if a.dom().contains("binding"@) {
        a["binding"@]@
    } else {
        Seq::empty()
    }
}

/// Texts joined with commas.
pub open spec fn commas(s: Seq<Seq<char>>) -> Seq<char> {
    crate::lower::join_comma(s)
}

/// A node as a JSON object.
pub open spec fn node_json_s(id: Seq<char>, n: Node) -> Seq<char> {
    "{\"id\":\""@ + short_s(id) + "\",\"kind\":\""@ + kind_label(n.kind) + "\",\"label\":\""@
        + json_escape_s(label_s(n)) + "\",\"children\":["@ + commas(
        strings_v(n.children@).map_values(|c: Seq<char>| quoted_short(c)),
    ) + "]}"@
}

/// The graph as the JSON the blueprint view draws: node count, roots, and each node in id
/// order.
pub open spec fn ir_json_s(g: Graph) -> Seq<char> {
    let ks = g.nodes.key_seq();
    let vs = g.nodes.val_seq();
    "{\"ok\":true,\"count\":"@ + dec_digits(ks.len()) + ",\"roots\":["@ + commas(
        strings_v(g.roots@).map_values(|c: Seq<char>| quoted_short(c)),
    ) + "],\"nodes\":["@ + commas(Seq::new(ks.len(), |i: int| node_json_s(ks[i], vs[i]))) + "]}"@
}

/// A failure as JSON.
pub open spec fn error_json_s(m: Seq<char>) -> Seq<char> {
    "{\"ok\":false,\"error\":\""@ + json_escape_s(m) + "\"}"@
}

fn short_id(s: &str) -> (r: String)
    ensures
        r@ == short_s(s@),
{
    let cs = chars_of(s);
    let n = if cs.len() < 8 {
        cs.len()
    } else {
        8
    };
    assert(cs@.len() < 8 ==> cs@.subrange(0, n as int) =~= cs@);
    crate::strs::slice_string(cs.as_slice(), 0, n)
}

/// Appends `"<short id>"` for each id, comma-separated.
fn push_short_list(out: &mut String, ids: &Vec<String>)
    ensures
        final(out)@ == old(out)@ + commas(strings_v(ids@).map_values(|c: Seq<char>| quoted_short(c))),
{
    let ghost q = strings_v(ids@).map_values(|c: Seq<char>| quoted_short(c));
    let ghost start = out@;
    let mut i: usize = 0;
    assert(q.take(0) =~= Seq::<Seq<char>>::empty());
    while i < ids.len()
        invariant
            i <= ids@.len(),
            q == strings_v(ids@).map_values(|c: Seq<char>| quoted_short(c)),
            out@ == start + commas(q.take(i as int)),
        decreases ids.len() - i,
    {
        assert(q.take(i + 1).drop_last() =~= q.take(i as int));
        assert(q[i as int] == quoted_short(ids@[i as int]@));
        if i > 0 {
            push_char(out, ',');
        }
        let ghost mid = out@;
        push_char(out, '"');
        let sh = short_id(ids[i].as_str());
        push_str(out, sh.as_str());
        push_char(out, '"');
        proof {
            reveal_strlit("\"");
            assert(out@ =~= mid + q[i as int]);
        }
        i = i + 1;
        assert(out@ =~= start + commas(q.take(i as int)));
    }
    assert(q.take(q.len() as int) =~= q);
}

fn node_label(n: &Node) -> (r: String)
    ensures
        r@ == label_s(*n),
{
    match n.attrs.get("name") {
        Some(v) => v.clone(),
        None => match n.attrs.get("op") {
            Some(v) => v.clone(),
            None => match n.attrs.get("value") {
                Some(v) => v.clone(),
                None => match n.attrs.get("binding") {
                    Some(v) => v.clone(),
                    None => String::new(),
                },
            },
        },
    }
}

fn node_json(id: &String, n: &Node) -> (r: String)
    ensures
        r@ == node_json_s(id@, *n),
{
    let mut s = string_from("{\"id\":\"");
    push_str(&mut s, short_id(id.as_str()).as_str());
    push_str(&mut s, "\",\"kind\":\"");
    push_str(&mut s, n.kind.as_str());
    push_str(&mut s, "\",\"label\":\"");
    push_str(&mut s, json_escape(node_label(n).as_str()).as_str());
    push_str(&mut s, "\",\"children\":[");
    push_short_list(&mut s, &n.children);
    push_str(&mut s, "]}");
    s
}

/// The graph as JSON for the blueprint view. Its nodes are listed in increasing id order.
pub fn ir_json(g: &Graph) -> (r: String)
    ensures
        r@ == ir_json_s(*g),
        sorted_keys(g.nodes.key_seq()),
{
    let n = g.nodes.len();
    let mut s = string_from("{\"ok\":true,\"count\":");
    push_decimal(&mut s, n as u64);
    push_str(&mut s, ",\"roots\":[");
    push_short_list(&mut s, &g.roots);
    push_str(&mut s, "],\"nodes\":[");
    let ghost ks = g.nodes.key_seq();
    let ghost vs = g.nodes.val_seq();
    let ghost items = Seq::new(ks.len(), |i: int| node_json_s(ks[i], vs[i]));
    let ghost start = s@;
    let mut i: usize = 0;
    assert(items.take(0) =~= Seq::<Seq<char>>::empty());
    while i < n
        invariant
            i <= n == ks.len(),
            ks == g.nodes.key_seq(),
            vs == g.nodes.val_seq(),
            vs.len() == ks.len(),
            items == Seq::new(ks.len(), |i: int| node_json_s(ks[i], vs[i])),
            s@ == start + commas(items.take(i as int)),
        decreases n - i,
    {
        assert(items.take(i + 1).drop_last() =~= items.take(i as int));
        let k = g.nodes.key_at(i);
        let v = g.nodes.value_at(i);
        if i > 0 {
            push_char(&mut s, ',');
        }
        push_str(&mut s, node_json(k, v).as_str());
        i = i + 1;
        assert(s@ =~= start + commas(items.take(i as int)));
    }
    assert(items.take(n as int) =~= items);
    push_str(&mut s, "]}");
    s
}

/// The IR payload for a request body: the lowered program as JSON, or the lexing or parsing
/// error. A program whose UTF-8 form is too long to index is refused.
pub fn api_ir(body: &str) -> (r: String)
    ensures
        encode_utf8(extract_code_s(body@)).len() >= isize::MAX ==> r@ == error_json_s(
            "program too large"@,
        ),
        encode_utf8(extract_code_s(body@)).len() < isize::MAX ==> match compile_s(
            extract_code_s(body@),
        ) {
            Err(m) => r@ == error_json_s(m),
            Ok(st) => exists|g: Graph|
                {
                    &&& g.nodes_v() == lowered(st).0
                    &&& sorted_keys(g.nodes.key_seq())
                    &&& strings_v(g.roots@) == lowered(st).1
                    &&& r@ == ir_json_s(g)
                },
        },
{
    let code = extract_code(body);
    let nbytes = code.as_str().as_bytes().len();
    if nbytes >= isize::MAX as usize {
        let mut s = string_from("{\"ok\":false,\"error\":\"");
        push_str(&mut s, json_escape("program too large").as_str());
        push_str(&mut s, "\"}");
        return s;
    }
    match parse_source(code.as_str()) {
        Err(m) => {
            let mut s = string_from("{\"ok\":false,\"error\":\"");
            push_str(&mut s, json_escape(m.as_str()).as_str());
            push_str(&mut s, "\"}");
            s
        },
        Ok(stmts) => {
            let g = crate::lower::lower(stmts.as_slice());
            ir_json(&g)
        },
    }
}

proof fn lemma_escape_front(s: Seq<char>)
    requires
        s.len() > 0,
    ensures
        json_escape_s(s) == json_char(s[0]) + json_escape_s(s.drop_first()),
    decreases s.len(),
{
    if s.len() > 1 {
        lemma_escape_front(s.drop_last());
        assert(s.drop_last().drop_first() =~= s.drop_first().drop_last());
        assert(s.drop_first().last() == s.last());
    } else {
        assert(s.drop_first() =~= Seq::<char>::empty());
        assert(s.drop_last() =~= Seq::<char>::empty());
    }
}

/// A text with its carriage returns taken out.
pub open spec fn without_cr(s: Seq<char>) -> Seq<char>
    decreases s.len(),
{
    if s.len() == 0 {
        Seq::empty()
    } else if s[0] == '\r' {
        without_cr(s.drop_first())
    } else {
        seq![s[0]] + without_cr(s.drop_first())
    }
}

/// Undoing the escapes of an escaped text gives the text back without its carriage returns
/// (which escaping drops); reading stops at the closing quote.
proof fn lemma_unescape_escaped(s: Seq<char>, tail: Seq<char>)
    ensures
        unescape_s(json_escape_s(s) + tail) == without_cr(s) + unescape_s(tail),
    decreases s.len(),
{
    if s.len() == 0 {
        assert(json_escape_s(s) + tail =~= tail);
        assert(without_cr(s) + unescape_s(tail) =~= unescape_s(tail));
    } else {
        lemma_escape_front(s);
        let c = s[0];
        let rest = json_escape_s(s.drop_first()) + tail;
        lemma_unescape_escaped(s.drop_first(), tail);
        let x = json_char(c) + rest;
        assert(x == json_escape_s(s) + tail);
        if c == '"' || c == '\\' || c == '\n' || c == '\t' {
            assert(x.skip(2) =~= rest);
            assert(seq![c] + (without_cr(s.drop_first()) + unescape_s(tail)) =~= without_cr(s)
                + unescape_s(tail));
        } else if c == '\r' {
            assert(x =~= rest);
        } else {
            assert(x.skip(1) =~= rest);
            assert(seq![c] + (without_cr(s.drop_first()) + unescape_s(tail)) =~= without_cr(s)
                + unescape_s(tail));
        }
    }
}

/// The code the browser sends, escaped as a JSON string in `{"code":"..."}`, is read back
/// as sent, but for its carriage returns, which escaping drops.
pub proof fn law_code_round_trip(code: Seq<char>)
    ensures
        extract_code_s("{\"code\":\""@ + json_escape_s(code) + "\"}"@) == without_cr(code),
{
    reveal_strlit("{\"code\":\"");
    reveal_strlit("\"}");
    reveal_strlit("\"code\"");
    reveal_strlit(":");
    reveal_strlit("\"");
    let e = json_escape_s(code);
    let body = "{\"code\":\""@ + e + "\"}"@;
    let key = "\"code\""@;
    assert(body.subrange(1, 7) =~= key);
    assert(body.subrange(0, 6) != key) by {
        assert(body.subrange(0, 6)[0] == '{');
    }
    assert(find_from(body, key, 1) == Some(1int));
    assert(find_from(body, key, 0) == Some(1int));
    assert(find_s(body, key) == Some(1int));
    let b1 = body.skip(1);
    assert(b1.subrange(0, 1) != ":"@) by {
        assert(b1.subrange(0, 1)[0] == '"');
    }
    assert(b1.subrange(1, 2) != ":"@) by {
        assert(b1.subrange(1, 2)[0] == 'c');
    }
    assert(b1.subrange(2, 3) != ":"@) by {
        assert(b1.subrange(2, 3)[0] == 'o');
    }
    assert(b1.subrange(3, 4) != ":"@) by {
        assert(b1.subrange(3, 4)[0] == 'd');
    }
    assert(b1.subrange(4, 5) != ":"@) by {
        assert(b1.subrange(4, 5)[0] == 'e');
    }
    assert(b1.subrange(5, 6) != ":"@) by {
        assert(b1.subrange(5, 6)[0] == '"');
    }
    assert(b1.subrange(6, 7) =~= ":"@);
    assert(find_from(b1, ":"@, 6) == Some(6int));
    assert(find_from(b1, ":"@, 5) == Some(6int));
    assert(find_from(b1, ":"@, 4) == Some(6int));
    assert(find_from(b1, ":"@, 3) == Some(6int));
    assert(find_from(b1, ":"@, 2) == Some(6int));
    assert(find_from(b1, ":"@, 1) == Some(6int));
    assert(find_from(b1, ":"@, 0) == Some(6int));
    assert(find_s(b1, ":"@) == Some(6int));
    let rest = body.skip(8);
    assert(rest.subrange(0, 1) =~= "\""@);
    assert(find_s(rest, "\""@) == Some(0int));
    assert(rest.skip(1) =~= e + "\"}"@);
    lemma_unescape_escaped(code, "\"}"@);
    assert(unescape_s("\"}"@) =~= Seq::<char>::empty());
    assert(without_cr(code) + Seq::<char>::empty() =~= without_cr(code));
}

} // verus!
