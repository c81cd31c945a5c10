//! The application server's status and code-map payloads, and the reading of a request's
//! first line and headers. The caller reads the socket and the files.

use vstd::prelude::*;
use crate::lower::{join_comma, join_strs};
use crate::parser::strings_v;
use crate::stdtext::{alnum, is_alnum, lowercase, to_lower};
use crate::strs::{
    after_prefix, find_s, has_prefix, is_char, lines, lines_of, split_whitespace, starts_with_str,
    strip_prefix_str, trim_end_by, trim_end_char, trim_s, trim_start_by, trim_start_char,
    trim_str, words, find_str, lemma_find_from, occurs_at, lead_count, lemma_lead_step,
    trim_start_s, trim_start_str,
};
use crate::text::{chars_of, dec_digits, push_decimal, push_str, str_eq, string_from};
use crate::web::{json_escape, json_escape_s};

verus! {

// ----------------------------------------------------------------------------------------
// Request line and headers
// ----------------------------------------------------------------------------------------

/// The method and path of a request line: its first two words, with `""` and `"/"` where
/// they are missing.
pub open spec fn request_target_s(line: Seq<char>) -> (Seq<char>, Seq<char>) {
    let w = words(line);
    (
        if w.len() > 0 {
            w[0]
        } else {
            Seq::empty()
        },
        if w.len() > 1 {
            w[1]
        } else {
            "/"@
        },
    )
}

/// The method and path of a request line.
pub fn request_target(line: &str) -> (r: (String, String))
    ensures
        (r.0@, r.1@) == request_target_s(line@),
{
    let w = split_whitespace(line);
    let method = if w.len() > 0 {
        w[0].clone()
    } else {
        String::new()
    };
    let path = if w.len() > 1 {
        w[1].clone()
    } else {
        string_from("/")
    };
    (method, path)
}

/// The value of an ASCII decimal digit.
pub open spec fn digit_value(c: char) -> nat {
    (c as nat - '0' as nat) as nat
}

pub open spec fn is_digit(c: char) -> bool {
    '0' <= c <= '9'
}

/// The number a run of decimal digits spells.
pub open spec fn digits_value(s: Seq<char>) -> nat
    decreases s.len(),
{
    if s.len() == 0 {
        0
    } else {
        digits_value(s.drop_last()) * 10 + digit_value(s.last())
    }
}

/// The text after an optional leading `+`.
pub open spec fn unsigned_digits(s: Seq<char>) -> Seq<char> {
    if s.len() > 0 && s[0] == '+' {
        s.drop_first()
    } else {
        s
    }
}

/// `str::parse::<usize>`: an optional `+`, then one or more decimal digits whose value fits.
pub open spec fn parse_usize_s(s: Seq<char>) -> Option<nat> {
    let d = unsigned_digits(s);
    if d.len() > 0 && (forall|i: int| 0 <= i < d.len() ==> is_digit(#[trigger] d[i]))
        && digits_value(d) <= usize::MAX {
        Some(digits_value(d))
    } else {
        None
    }
}

proof fn lemma_digits_grow(d: Seq<char>, i: int)
    requires
        0 <= i <= d.len(),
        forall|k: int| 0 <= k < d.len() ==> is_digit(#[trigger] d[k]),
    ensures
        digits_value(d.take(i)) <= digits_value(d),
    decreases d.len() - i,
{
    if i < d.len() {
        lemma_digits_grow(d, i + 1);
        assert(d.take(i + 1).drop_last() =~= d.take(i));
    } else {
        assert(d.take(i) =~= d);
    }
}

/// A decimal number in the form `str::parse::<usize>` accepts.
pub fn parse_usize(s: &str) -> (r: Option<usize>)
    ensures
        match r {
            Some(n) => parse_usize_s(s@) == Some(n as nat),
            None => parse_usize_s(s@) is None,
        },
{
    let cs = chars_of(s);
    let start: usize = if cs.len() > 0 && cs[0] == '+' {
        1
    } else {
        0
    };
    let ghost d = unsigned_digits(s@);
    assert(d =~= cs@.skip(start as int));
    if start >= cs.len() {
        assert(d.len() == 0);
        return None;
    }
    let mut v: usize = 0;
    let mut i: usize = start;
    assert(d.take(0) =~= Seq::<char>::empty());
    while i < cs.len()
        invariant
            start <= i <= cs@.len(),
            cs@ == s@,
            d == cs@.skip(start as int),
            d == unsigned_digits(s@),
            v == digits_value(d.take(i - start)),
            forall|k: int| 0 <= k < i - start ==> is_digit(#[trigger] d[k]),
        decreases cs.len() - i,
    {
        let c = cs[i];
        assert(d[i - start] == c);
        if !('0' <= c && c <= '9') {
            assert(!is_digit(d[i - start]));
            return None;
        }
        assert(d.take(i - start + 1).drop_last() =~= d.take(i - start));
        let dv = (c as u32 - '0' as u32) as usize;
        assert(dv == digit_value(c));
        assert(digits_value(d.take(i - start + 1)) == v * 10 + dv);
        match v.checked_mul(10) {
            None => {
                proof {
                    if forall|k: int| 0 <= k < d.len() ==> is_digit(#[trigger] d[k]) {
                        lemma_digits_grow(d, i - start + 1);
                    }
                }
                return None;
            },
            Some(m) => match m.checked_add(dv) {
                None => {
                    proof {
                        if forall|k: int| 0 <= k < d.len() ==> is_digit(#[trigger] d[k]) {
                            lemma_digits_grow(d, i - start + 1);
                        }
                    }
                    return None;
                },
                Some(n) => {
                    v = n;
                },
            },
        }
        i = i + 1;
    }
    assert(d.take(d.len() as int) =~= d);
    Some(v)
}

/// What a header line says of the body's length: `None` where it is not a
/// `Content-Length` header (compared without case), else its trimmed value read as a
/// number, 0 where that fails.
pub open spec fn content_length_s(line: Seq<char>) -> Option<nat> {
    match after_prefix(lowercase(line), "content-length:"@) {
        Some(v) => Some(
            match parse_usize_s(trim_s(v)) {
                Some(n) => n,
                None => 0,
            },
        ),
        None => None,
    }
}

/// What a header line says of the body's length.
pub fn content_length_of(line: &str) -> (r: Option<usize>)
    ensures
        match r {
            Some(n) => content_length_s(line@) == Some(n as nat),
            None => content_length_s(line@) is None,
        },
{
    let low = to_lower(line);
    match strip_prefix_str(low.as_str(), "content-length:") {
        Some(v) => {
            let t = trim_str(v.as_str());
            match parse_usize(t.as_str()) {
                Some(n) => Some(n),
                None => Some(0),
            }
        },
        None => None,
    }
}

// ----------------------------------------------------------------------------------------
// Status payload: a line scan of the feature registry
// ----------------------------------------------------------------------------------------

/// The value of a `key = value` line: what follows the first `=`, trimmed, without
/// surrounding double quotes.
pub open spec fn field_value_s(l: Seq<char>) -> Seq<char> {
    let after = match find_s(l, "="@) {
        Some(i) => l.skip(i + 1),
        None => Seq::empty(),
    };
    trim_end_by(trim_start_by(trim_s(after), is_char('"')), is_char('"'))
}

/// The name last seen and the `(name, status)` pairs found in the lines: a `status` line
/// records the pair when a name has been seen.
pub open spec fn status_scan(ls: Seq<Seq<char>>) -> (Seq<char>, Seq<(Seq<char>, Seq<char>)>)
    decreases ls.len(),
{
    if ls.len() == 0 {
        (Seq::empty(), Seq::empty())
    } else {
        let prev = status_scan(ls.drop_last());
        let l = trim_s(ls.last());
        let name = if has_prefix(l, "name"@) {
            field_value_s(l)
        } else {
            prev.0
        };
        let items = if has_prefix(l, "status"@) && name.len() > 0 {
            prev.1.push((name, field_value_s(l)))
        } else {
            prev.1
        };
        (name, items)
    }
}

/// The number of pairs whose status is `s`.
pub open spec fn count_status(items: Seq<(Seq<char>, Seq<char>)>, s: Seq<char>) -> nat
    decreases items.len(),
{
    if items.len() == 0 {
        0
    } else {
        count_status(items.drop_last(), s) + if items.last().1 == s {
            1nat
        } else {
            0nat
        }
    }
}

/// The number of pairs whose status is neither `live` nor `building`.
pub open spec fn count_other(items: Seq<(Seq<char>, Seq<char>)>) -> nat
    decreases items.len(),
{
    if items.len() == 0 {
        0
    } else {
        count_other(items.drop_last()) + if items.last().1 != "live"@ && items.last().1
            != "building"@ {
            1nat
        } else {
            0nat
        }
    }
}

pub open spec fn status_item_json(p: (Seq<char>, Seq<char>)) -> Seq<char> {
    "{\"name\":\""@ + json_escape_s(p.0) + "\",\"status\":\""@ + p.1 + "\"}"@
}

/// The status payload for the registry text: counts by status and each feature found.
pub open spec fn status_json_s(text: Seq<char>) -> Seq<char> {
    let items = status_scan(lines(text)).1;
    "{\"live\":"@ + dec_digits(count_status(items, "live"@)) + ",\"building\":"@ + dec_digits(
        count_status(items, "building"@),
    ) + ",\"planned\":"@ + dec_digits(count_other(items)) + ",\"features\":["@ + join_comma(
        items.map_values(|p: (Seq<char>, Seq<char>)| status_item_json(p)),
    ) + "]}"@
}

pub open spec fn pairs_v(s: Seq<(String, String)>) -> Seq<(Seq<char>, Seq<char>)> {
    s.map_values(|p: (String, String)| (p.0@, p.1@))
}

/// The value of a `key = value` line.
pub fn field_value(l: &str) -> (r: String)
    ensures
        r@ == field_value_s(l@),
{
    let cs = chars_of(l);
    let n = cs.len();
    proof {
        reveal_strlit("=");
        lemma_find_from(l@, "="@, 0);
    }
    let after = match find_str(l, "=") {
        Some(i) => {
            assert(occurs_at(l@, "="@, i as int));
            crate::strs::slice_string(cs.as_slice(), i + 1, n)
        },
        None => String::new(),
    };
    let t = trim_str(after.as_str());
    let u = trim_start_char(t.as_str(), '"');
    trim_end_char(u.as_str(), '"')
}

/// The `(name, status)` pairs of the registry text.
pub fn status_items(text: &str) -> (r: Vec<(String, String)>)
    ensures
        pairs_v(r@) == status_scan(lines(text@)).1,
{
    let ls = lines_of(text);
    let ghost lv = lines(text@);
    let mut name = String::new();
    let mut items: Vec<(String, String)> = Vec::new();
    let mut i: usize = 0;
    assert(lv.take(0) =~= Seq::<Seq<char>>::empty());
    assert(pairs_v(items@) =~= Seq::<(Seq<char>, Seq<char>)>::empty());
    while i < ls.len()
        invariant
            i <= ls@.len() == lv.len(),
            lv == lines(text@),
            forall|k: int| 0 <= k < ls@.len() ==> #[trigger] ls@[k]@ == lv[k],
            (name@, pairs_v(items@)) == status_scan(lv.take(i as int)),
        decreases ls.len() - i,
    {
        proof {
            reveal_strlit("");
        }
        assert(lv.take(i + 1).drop_last() =~= lv.take(i as int));
        assert(lv.take(i + 1).last() == ls@[i as int]@);
        let ghost prev = status_scan(lv.take(i as int));
        let ghost next = status_scan(lv.take(i + 1));
        let l = trim_str(ls[i].as_str());
        if starts_with_str(l.as_str(), "name") {
            name = field_value(l.as_str());
        }
        if starts_with_str(l.as_str(), "status") {
            let st = field_value(l.as_str());
            if !str_eq(name.as_str(), "") {
                assert(name@.len() > 0) by {
                    if name@.len() == 0 {
                        assert(name@ =~= ""@);
                    }
                }
                let ghost before = items@;
                items.push((name.clone(), st));
                assert(pairs_v(items@) =~= pairs_v(before).push((name@, field_value_s(l@))));
            } else {
                assert(name@.len() == 0);
            }
        }
        assert(name@ == next.0);
        assert(pairs_v(items@) =~= next.1);
        i = i + 1;
    }
    assert(lv.take(ls@.len() as int) =~= lv);
    items
}

/// The status payload for the registry text.
pub fn status_json(text: &str) -> (r: String)
    ensures
        r@ == status_json_s(text@),
{
    let items = status_items(text);
    let ghost iv = pairs_v(items@);
    let mut live: usize = 0;
    let mut building: usize = 0;
    let mut planned: usize = 0;
    let mut parts: Vec<String> = Vec::new();
    let mut i: usize = 0;
    assert(iv.take(0) =~= Seq::<(Seq<char>, Seq<char>)>::empty());
    while i < items.len()
        invariant
            i <= items@.len(),
            iv == pairs_v(items@),
            live == count_status(iv.take(i as int), "live"@),
            building == count_status(iv.take(i as int), "building"@),
            planned == count_other(iv.take(i as int)),
            live + building + planned <= i,
            strings_v(parts@) == iv.take(i as int).map_values(
                |p: (Seq<char>, Seq<char>)| status_item_json(p),
            ),
        decreases items.len() - i,
    {
        proof {
            reveal_strlit("live");
            reveal_strlit("building");
        }
        assert(iv.take(i + 1).drop_last() =~= iv.take(i as int));
        assert(iv.take(i + 1).last() == (items@[i as int].0@, items@[i as int].1@));
        let st = &items[i].1;
        if str_eq(st.as_str(), "live") {
            live = live + 1;
        } else if str_eq(st.as_str(), "building") {
            building = building + 1;
        } else {
            planned = planned + 1;
        }
        let mut s = string_from("{\"name\":\"");
        push_str(&mut s, json_escape(items[i].0.as_str()).as_str());
        push_str(&mut s, "\",\"status\":\"");
        push_str(&mut s, st.as_str());
        push_str(&mut s, "\"}");
        let ghost before = parts@;
        parts.push(s);
        assert(strings_v(parts@) =~= strings_v(before).push(s@));
        assert(iv.take(i + 1).map_values(|p: (Seq<char>, Seq<char>)| status_item_json(p))
            =~= iv.take(i as int).map_values(|p: (Seq<char>, Seq<char>)| status_item_json(p)).push(
            status_item_json(iv[i as int]),
        ));
        i = i + 1;
    }
    assert(iv.take(items@.len() as int) =~= iv);
    let mut r = string_from("{\"live\":");
    push_decimal(&mut r, live as u64);
    push_str(&mut r, ",\"building\":");
    push_decimal(&mut r, building as u64);
    push_str(&mut r, ",\"planned\":");
    push_decimal(&mut r, planned as u64);
    push_str(&mut r, ",\"features\":[");
    push_str(&mut r, join_strs(&parts).as_str());
    push_str(&mut r, "]}");
    r
}

// ----------------------------------------------------------------------------------------
// Code-map payload: crates, files and their top-level symbols
// ----------------------------------------------------------------------------------------

/// The prefixes that open a top-level symbol, each with the symbol's kind, in the order
/// they are tried.
pub open spec fn symbol_keywords() -> Seq<(Seq<char>, Seq<char>)> {
    seq![
        ("pub fn "@, "fn"@),
        ("fn "@, "fn"@),
        ("pub struct "@, "struct"@),
        ("struct "@, "struct"@),
        ("pub enum "@, "enum"@),
        ("enum "@, "enum"@),
        ("pub trait "@, "trait"@),
        ("trait "@, "trait"@),
    ]
}

/// The first keyword, from index `k` on, that `l` starts with.
pub open spec fn first_keyword(l: Seq<char>, kws: Seq<(Seq<char>, Seq<char>)>, k: int) -> Option<
    int,
>
    decreases kws.len() - k,
{
    if k < 0 || k >= kws.len() {
        None
    } else if has_prefix(l, kws[k].0) {
        Some(k)
    } else {
        first_keyword(l, kws, k + 1)
    }
}

pub open spec fn ident_char() -> spec_fn(char) -> bool {
    |c: char| alnum(c) || c == '_'
}

/// The leading identifier characters (alphanumeric or `_`) of `s`.
pub open spec fn ident_run(s: Seq<char>) -> Seq<char> {
    s.take(lead_count(s, ident_char()) as int)
}

/// The symbol entry a source line gives: the line, without leading whitespace, opens with a
/// keyword and a non-empty name follows.
pub open spec fn line_symbol(line: Seq<char>) -> Option<Seq<char>> {
    let l = trim_start_s(line);
    match first_keyword(l, symbol_keywords(), 0) {
        Some(k) => {
            let name = ident_run(l.skip(symbol_keywords()[k].0.len() as int));
            if name.len() > 0 {
                Some(
                    "{\"name\":\""@ + json_escape_s(name) + "\",\"kind\":\""@
                        + symbol_keywords()[k].1 + "\"}"@,
                )
            } else {
                None
            }
        },
        None => None,
    }
}

/// The symbol entries of the lines, in order.
pub open spec fn symbols_of(ls: Seq<Seq<char>>) -> Seq<Seq<char>>
    decreases ls.len(),
{
    if ls.len() == 0 {
        Seq::empty()
    } else {
        let p = symbols_of(ls.drop_last());
        match line_symbol(ls.last()) {
            Some(e) => p.push(e),
            None => p,
        }
    }
}

/// A source file as the code map shows it: name, line count and symbols.
pub open spec fn file_json_s(name: Seq<char>, content: Seq<char>) -> Seq<char> {
    "{\"name\":\""@ + json_escape_s(name) + "\",\"loc\":"@ + dec_digits(lines(content).len())
        + ",\"symbols\":["@ + join_comma(symbols_of(lines(content))) + "]}"@
}

/// A crate as the code map shows it: name and its files' entries.
pub open spec fn crate_json_s(name: Seq<char>, files: Seq<Seq<char>>) -> Seq<char> {
    "{\"name\":\""@ + json_escape_s(name) + "\",\"files\":["@ + join_comma(files) + "]}"@
}

/// The code-map payload from the crates' entries.
pub open spec fn map_json_s(crates: Seq<Seq<char>>) -> Seq<char> {
    "{\"ok\":true,\"crates\":["@ + join_comma(crates) + "]}"@
}

fn keyword_table() -> (r: Vec<(&'static str, &'static str)>)
    ensures
        r@.len() == symbol_keywords().len(),
        forall|i: int| 0 <= i < r@.len() ==> (#[trigger] r@[i].0@, r@[i].1@) == symbol_keywords()[i],
{
    let r = vec![
        ("pub fn ", "fn"),
        ("fn ", "fn"),
        ("pub struct ", "struct"),
        ("struct ", "struct"),
        ("pub enum ", "enum"),
        ("enum ", "enum"),
        ("pub trait ", "trait"),
        ("trait ", "trait"),
    ];
    assert forall|i: int| 0 <= i < r@.len() implies (#[trigger] r@[i].0@, r@[i].1@)
        == symbol_keywords()[i] by {}
    r
}

/// The leading identifier characters of `s`.
pub fn ident_prefix(s: &str) -> (r: String)
    ensures
        r@ == ident_run(s@),
{
    let cs = chars_of(s);
    let mut i: usize = 0;
    assert(cs@.skip(0) =~= cs@);
    while i < cs.len() && (is_alnum(cs[i]) || cs[i] == '_')
        invariant
            i <= cs@.len(),
            cs@ == s@,
            lead_count(s@, ident_char()) == i + lead_count(cs@.skip(i as int), ident_char()),
        decreases cs.len() - i,
    {
        proof {
            lemma_lead_step(cs@, i as int, ident_char());
        }
        i = i + 1;
    }
    if i < cs.len() {
        assert(cs@.skip(i as int)[0] == cs@[i as int]);
    } else {
        assert(cs@.skip(i as int).len() == 0);
    }
    crate::strs::slice_string(cs.as_slice(), 0, i)
}

/// The symbol entry a source line gives, if any.
pub fn line_symbol_of(line: &str) -> (r: Option<String>)
    ensures
        match r {
            Some(e) => line_symbol(line@) == Some(e@),
            None => line_symbol(line@) is None,
        },
{
    let l = trim_start_str(line);
    let kws = keyword_table();
    let mut k: usize = 0;
    while k < kws.len()
        invariant
            k <= kws@.len() == symbol_keywords().len(),
            l@ == trim_start_s(line@),
            forall|i: int| 0 <= i < kws@.len() ==> (#[trigger] kws@[i].0@, kws@[i].1@) == symbol_keywords()[i],
            first_keyword(l@, symbol_keywords(), 0) == first_keyword(l@, symbol_keywords(), k as int),
        decreases kws.len() - k,
    {
        let (kw, kind) = kws[k];
        assert((kw@, kind@) == symbol_keywords()[k as int]);
        if starts_with_str(l.as_str(), kw) {
            let cl = chars_of(l.as_str());
            let ck = chars_of(kw);
            let rest = crate::strs::slice_string(cl.as_slice(), ck.len(), cl.len());
            assert(rest@ =~= l@.skip(kw@.len() as int));
            assert(first_keyword(l@, symbol_keywords(), k as int) == Some(k as int));
            assert(symbol_keywords()[k as int].0 == kw@);
            assert(symbol_keywords()[k as int].1 == kind@);
            let name = ident_prefix(rest.as_str());
            if chars_of(name.as_str()).len() > 0 {
                let mut e = string_from("{\"name\":\"");
                push_str(&mut e, json_escape(name.as_str()).as_str());
                push_str(&mut e, "\",\"kind\":\"");
                push_str(&mut e, kind);
                push_str(&mut e, "\"}");
                return Some(e);
            } else {
                return None;
            }
        }
        k = k + 1;
    }
    None
}

/// A source file's code-map entry from its name and text.
pub fn file_json(name: &str, content: &str) -> (r: String)
    ensures
        r@ == file_json_s(name@, content@),
{
    let ls = lines_of(content);
    let ghost lv = lines(content@);
    let mut syms: Vec<String> = Vec::new();
    let mut i: usize = 0;
    assert(lv.take(0) =~= Seq::<Seq<char>>::empty());
    assert(strings_v(syms@) =~= Seq::<Seq<char>>::empty());
    while i < ls.len()
        invariant
            i <= ls@.len() == lv.len(),
            lv == lines(content@),
            forall|k: int| 0 <= k < ls@.len() ==> #[trigger] ls@[k]@ == lv[k],
            strings_v(syms@) == symbols_of(lv.take(i as int)),
        decreases ls.len() - i,
    {
        assert(lv.take(i + 1).drop_last() =~= lv.take(i as int));
        assert(lv.take(i + 1).last() == ls@[i as int]@);
        match line_symbol_of(ls[i].as_str()) {
            Some(e) => {
                let ghost before = syms@;
                syms.push(e);
                assert(strings_v(syms@) =~= strings_v(before).push(e@));
            },
            None => {},
        }
        i = i + 1;
    }
    assert(lv.take(ls@.len() as int) =~= lv);
    let mut r = string_from("{\"name\":\"");
    push_str(&mut r, json_escape(name).as_str());
    push_str(&mut r, "\",\"loc\":");
    push_decimal(&mut r, ls.len() as u64);
    push_str(&mut r, ",\"symbols\":[");
    push_str(&mut r, join_strs(&syms).as_str());
    push_str(&mut r, "]}");
    r
}

/// A crate's code-map entry from its name and its files' entries.
pub fn crate_json(name: &str, files: &Vec<String>) -> (r: String)
    ensures
        r@ == crate_json_s(name@, strings_v(files@)),
{
    let mut r = string_from("{\"name\":\"");
    push_str(&mut r, json_escape(name).as_str());
    push_str(&mut r, "\",\"files\":[");
    push_str(&mut r, join_strs(files).as_str());
    push_str(&mut r, "]}");
    r
}

/// The code-map payload from the crates' entries.
pub fn map_json(crates: &Vec<String>) -> (r: String)
    ensures
        r@ == map_json_s(strings_v(crates@)),
{
    let mut r = string_from("{\"ok\":true,\"crates\":[");
    push_str(&mut r, join_strs(crates).as_str());
    push_str(&mut r, "]}");
    r
}

/// Every recorded feature counts under exactly one of live, building and planned.
pub proof fn law_status_counts_cover(items: Seq<(Seq<char>, Seq<char>)>)
    ensures
        count_status(items, "live"@) + count_status(items, "building"@) + count_other(items)
            == items.len(),
    decreases items.len(),
{
    reveal_strlit("live");
    reveal_strlit("building");
    if items.len() > 0 {
        law_status_counts_cover(items.drop_last());
        assert("live"@.len() == 4);
        assert("building"@.len() == 8);
        assert("live"@ != "building"@);
    }
}

} // verus!
