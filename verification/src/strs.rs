//! String algorithms over character sequences: whitespace splitting, ASCII case folding,
//! substring search, prefixes and suffixes.

use vstd::prelude::*;
use crate::text::{chars_of, push_char, string_of};

verus! {

/// Unicode White_Space, the property behind `char::is_whitespace`.
pub open spec fn is_white(c: char) -> bool {
    let u = c as u32;
    (9 <= u && u <= 13) || u == 32 || u == 0x85 || u == 0xA0 || u == 0x1680 || (0x2000 <= u && u
        <= 0x200A) || u == 0x2028 || u == 0x2029 || u == 0x202F || u == 0x205F || u == 0x3000
}

pub fn is_white_char(c: char) -> (b: bool)
    ensures
        b == is_white(c),
{
    let u = c as u32;
    (9 <= u && u <= 13) || u == 32 || u == 0x85 || u == 0xA0 || u == 0x1680 || (0x2000 <= u && u
        <= 0x200A) || u == 0x2028 || u == 0x2029 || u == 0x202F || u == 0x205F || u == 0x3000
}

/// The maximal runs of non-whitespace characters, in order (`str::split_whitespace`),
/// defined by how appending one character changes them.
pub open spec fn words(s: Seq<char>) -> Seq<Seq<char>>
    decreases s.len(),
{
    if s.len() == 0 {
        Seq::empty()
    } else {
        let w = words(s.drop_last());
        let c = s.last();
        if is_white(c) {
            w
        } else if s.len() == 1 || is_white(s[s.len() - 2]) {
            w.push(seq![c])
        } else {
            w.update(w.len() - 1, w.last().push(c))
        }
    }
}

/// A text that does not end in whitespace and is not empty has at least one word.
pub proof fn lemma_words_nonempty(s: Seq<char>)
    requires
        s.len() > 0,
        !is_white(s.last()),
    ensures
        words(s).len() > 0,
    decreases s.len(),
{
    if s.len() > 1 && !is_white(s[s.len() - 2]) {
        assert(s.drop_last().last() == s[s.len() - 2]);
        lemma_words_nonempty(s.drop_last());
    }
}

/// Each word is non-empty and holds no whitespace; there are at most as many words as
/// characters.
pub proof fn lemma_words_shape(s: Seq<char>)
    ensures
        words(s).len() <= s.len(),
        forall|i: int| 0 <= i < words(s).len() ==> #[trigger] words(s)[i].len() > 0,
        forall|i: int, j: int|
            0 <= i < words(s).len() && 0 <= j < words(s)[i].len() ==> !is_white(
                #[trigger] words(s)[i][j],
            ),
    decreases s.len(),
{
    if s.len() > 0 {
        lemma_words_shape(s.drop_last());
        if !is_white(s.last()) && !(s.len() == 1 || is_white(s[s.len() - 2])) {
            assert(s.drop_last().last() == s[s.len() - 2]);
            lemma_words_nonempty(s.drop_last());
        }
    }
}

/// The whitespace-separated words of `s`.
pub fn split_whitespace(s: &str) -> (r: Vec<String>)
    ensures
        r@.len() == words(s@).len(),
        forall|i: int| 0 <= i < r@.len() ==> #[trigger] r@[i]@ == words(s@)[i],
{
    let cs = chars_of(s);
    let mut r: Vec<String> = Vec::new();
    let mut i: usize = 0;
    while i < cs.len()
        invariant
            i <= cs@.len(),
            cs@ == s@,
            r@.len() == words(s@.take(i as int)).len(),
            forall|k: int| 0 <= k < r@.len() ==> #[trigger] r@[k]@ == words(s@.take(i as int))[k],
        decreases cs.len() - i,
    {
        let c = cs[i];
        let ghost pre = s@.take(i as int);
        assert(s@.take(i + 1).drop_last() =~= pre);
        assert(s@.take(i + 1).last() == c);
        if is_white_char(c) {
        } else if i == 0 || is_white_char(cs[i - 1]) {
            r.push(string_of(&[c]));
            assert(seq![c] =~= [c]@);
        } else {
            assert(s@.take(i + 1)[i - 1] == cs@[i - 1]);
            proof {
                lemma_words_nonempty(pre);
            }
            let last = r.len() - 1;
            let mut w = r[last].clone();
            push_char(&mut w, c);
            r.set(last, w);
        }
        i = i + 1;
        assert forall|k: int| 0 <= k < r@.len() implies #[trigger] r@[k]@ == words(
            s@.take(i as int),
        )[k] by {}
    }
    assert(s@.take(cs@.len() as int) =~= s@);
    r
}

/// ASCII lower-casing of one character.
pub open spec fn ascii_lower(c: char) -> char {
    if 'A' <= c && c <= 'Z' {
        (((c as u8) + 32) as u8) as char
    } else {
        c
    }
}

/// Equal up to ASCII case (`str::eq_ignore_ascii_case`).
pub open spec fn eq_ignore_case(a: Seq<char>, b: Seq<char>) -> bool {
    a.len() == b.len() && forall|i: int| 0 <= i < a.len() ==> ascii_lower(#[trigger] a[i]) == ascii_lower(b[i])
}

fn ascii_lower_char(c: char) -> (r: char)
    ensures
        r == ascii_lower(c),
{
    if 'A' <= c && c <= 'Z' {
        let b: u8 = (c as u8) + 32;
        b as char
    } else {
        c
    }
}

pub fn eq_ignore_ascii_case(a: &str, b: &str) -> (r: bool)
    ensures
        r == eq_ignore_case(a@, b@),
{
    let ca = chars_of(a);
    let cb = chars_of(b);
    if ca.len() != cb.len() {
        return false;
    }
    let mut i: usize = 0;
    while i < ca.len()
        invariant
            i <= ca@.len(),
            ca@ == a@,
            cb@ == b@,
            ca@.len() == cb@.len(),
            forall|k: int| 0 <= k < i ==> ascii_lower(#[trigger] a@[k]) == ascii_lower(b@[k]),
        decreases ca.len() - i,
    {
        if ascii_lower_char(ca[i]) != ascii_lower_char(cb[i]) {
            return false;
        }
        i = i + 1;
    }
    true
}

/// `p` occurs in `s` at position `i`.
pub open spec fn occurs_at(s: Seq<char>, p: Seq<char>, i: int) -> bool {
    0 <= i && i + p.len() <= s.len() && s.subrange(i, i + p.len()) == p
}

/// The first position at or after `i` where `p` occurs in `s`.
pub open spec fn find_from(s: Seq<char>, p: Seq<char>, i: int) -> Option<int>
    decreases s.len() + 1 - i,
{
    if i < 0 || i + p.len() > s.len() {
        None
    } else if s.subrange(i, i + p.len()) == p {
        Some(i)
    } else {
        find_from(s, p, i + 1)
    }
}

/// The first position where `p` occurs in `s` (`str::find`).
pub open spec fn find_s(s: Seq<char>, p: Seq<char>) -> Option<int> {
    find_from(s, p, 0)
}

/// Whether `p` occurs in `s` at all (`str::contains`).
pub open spec fn contains_s(s: Seq<char>, p: Seq<char>) -> bool {
    find_s(s, p) is Some
}

/// The first position of `p` in `cs`, over characters.
pub fn find_chars(cs: &[char], p: &[char]) -> (r: Option<usize>)
    ensures
        match r {
            Some(i) => find_s(cs@, p@) == Some(i as int),
            None => find_s(cs@, p@) is None,
        },
{
    if p.len() > cs.len() {
        return None;
    }
    let mut i: usize = 0;
    while p.len() <= cs.len() - i
        invariant
            p@.len() <= cs@.len(),
            i <= cs@.len(),
            find_s(cs@, p@) == find_from(cs@, p@, i as int),
        decreases cs.len() - i,
    {
        let mut j: usize = 0;
        let mut same = true;
        let n = cs.len();
        while j < p.len()
            invariant
                n == cs@.len(),
                i + p@.len() <= cs@.len(),
                j <= p@.len(),
                same == (forall|k: int| 0 <= k < j ==> cs@[i + k] == p@[k]),
            decreases p.len() - j,
        {
            assert(i + j < cs@.len());
            if cs[i + j] != p[j] {
                same = false;
            }
            j = j + 1;
        }
        if same {
            assert(cs@.subrange(i as int, i + p@.len()) =~= p@);
            return Some(i);
        }
        assert(cs@.subrange(i as int, i + p@.len()) != p@) by {
            let k = choose|k: int| 0 <= k < p@.len() && cs@[i + k] != p@[k];
            assert(cs@.subrange(i as int, i + p@.len())[k] == cs@[i + k]);
        }
        i = i + 1;
    }
    None
}

/// The first position of `p` in `s`.
pub fn find_str(s: &str, p: &str) -> (r: Option<usize>)
    ensures
        match r {
            Some(i) => find_s(s@, p@) == Some(i as int),
            None => find_s(s@, p@) is None,
        },
{
    let cs = chars_of(s);
    let cp = chars_of(p);
    find_chars(cs.as_slice(), cp.as_slice())
}

/// Whether `p` occurs in `s`.
pub fn contains_str(s: &str, p: &str) -> (b: bool)
    ensures
        b == contains_s(s@, p@),
{
    find_str(s, p).is_some()
}

/// A found position is an occurrence, and nothing before it is.
pub proof fn lemma_find_from(s: Seq<char>, p: Seq<char>, i: int)
    requires
        0 <= i,
    ensures
        match find_from(s, p, i) {
            Some(k) => occurs_at(s, p, k) && i <= k && forall|j: int| i <= j < k ==> !occurs_at(s, p, j),
            None => forall|j: int| i <= j ==> !occurs_at(s, p, j),
        },
    decreases s.len() + 1 - i,
{
    if i + p.len() <= s.len() && s.subrange(i, i + p.len()) != p {
        lemma_find_from(s, p, i + 1);
    }
}

/// `s` starts with `p`.
pub open spec fn has_prefix(s: Seq<char>, p: Seq<char>) -> bool {
    p.len() <= s.len() && s.take(p.len() as int) == p
}

/// `s` ends with `p`.
pub open spec fn has_suffix(s: Seq<char>, p: Seq<char>) -> bool {
    p.len() <= s.len() && s.skip(s.len() - p.len()) == p
}

pub fn starts_with(cs: &[char], p: &[char]) -> (b: bool)
    ensures
        b == has_prefix(cs@, p@),
{
    if p.len() > cs.len() {
        return false;
    }
    let mut j: usize = 0;
    while j < p.len()
        invariant
            p@.len() <= cs@.len(),
            j <= p@.len(),
            forall|k: int| 0 <= k < j ==> cs@[k] == p@[k],
        decreases p.len() - j,
    {
        if cs[j] != p[j] {
            assert(cs@.take(p@.len() as int)[j as int] != p@[j as int]);
            return false;
        }
        j = j + 1;
    }
    assert(cs@.take(p@.len() as int) =~= p@);
    true
}

pub fn ends_with(cs: &[char], p: &[char]) -> (b: bool)
    ensures
        b == has_suffix(cs@, p@),
{
    if p.len() > cs.len() {
        return false;
    }
    let off = cs.len() - p.len();
    let n = cs.len();
    let mut j: usize = 0;
    while j < p.len()
        invariant
            n == cs@.len(),
            p@.len() <= cs@.len(),
            off == cs@.len() - p@.len(),
            j <= p@.len(),
            forall|k: int| 0 <= k < j ==> cs@[off + k] == p@[k],
        decreases p.len() - j,
    {
        assert(off + j < cs@.len());
        if cs[off + j] != p[j] {
            assert(cs@.skip(off as int)[j as int] != p@[j as int]);
            return false;
        }
        j = j + 1;
    }
    assert(cs@.skip(off as int) =~= p@);
    true
}

/// The characters `cs[from..to]` as a `String`.
pub fn slice_string(cs: &[char], from: usize, to: usize) -> (s: String)
    requires
        from <= to <= cs@.len(),
    ensures
        s@ == cs@.subrange(from as int, to as int),
{
    let mut s = String::new();
    let mut i: usize = from;
    while i < to
        invariant
            from <= i <= to <= cs@.len(),
            s@ == cs@.subrange(from as int, i as int),
        decreases to - i,
    {
        push_char(&mut s, cs[i]);
        i = i + 1;
        assert(s@ =~= cs@.subrange(from as int, i as int));
    }
    s
}


/// The pieces of `s` between newlines (`str::split('\n')`); there is always at least one.
pub open spec fn split_nl(s: Seq<char>) -> Seq<Seq<char>>
    decreases s.len(),
{
    if s.len() == 0 {
        seq![Seq::<char>::empty()]
    } else {
        let w = split_nl(s.drop_last());
        if s.last() == '\n' {
            w.push(Seq::<char>::empty())
        } else {
            w.update(w.len() - 1, w.last().push(s.last()))
        }
    }
}

pub proof fn lemma_split_nl_nonempty(s: Seq<char>)
    ensures
        split_nl(s).len() >= 1,
    decreases s.len(),
{
    if s.len() > 0 {
        lemma_split_nl_nonempty(s.drop_last());
    }
}

/// A piece with one trailing carriage return removed.
pub open spec fn strip_cr(seg: Seq<char>) -> Seq<char> {
    if seg.len() > 0 && seg.last() == '\r' {
        seg.drop_last()
    } else {
        seg
    }
}

/// The lines of `s` (`str::lines`): pieces between newlines, a carriage return before a
/// newline dropped, and no final empty line after a trailing newline.
pub open spec fn lines(s: Seq<char>) -> Seq<Seq<char>> {
    let segs = split_nl(s);
    let n = if segs.last().len() == 0 {
        segs.len() - 1
    } else {
        segs.len() as int
    };
    Seq::new(
        n as nat,
        |i: int|
            if i < segs.len() - 1 {
                strip_cr(segs[i])
            } else {
                segs[i]
            },
    )
}

/// The lines of `s`.
pub fn lines_of(s: &str) -> (r: Vec<String>)
    ensures
        r@.len() == lines(s@).len(),
        forall|i: int| 0 <= i < r@.len() ==> #[trigger] r@[i]@ == lines(s@)[i],
{
    let cs = chars_of(s);
    let mut out: Vec<String> = Vec::new();
    let mut cur: Vec<char> = Vec::new();
    let ghost mut raw: Seq<Seq<char>> = Seq::empty();
    let mut i: usize = 0;
    assert(s@.take(0) =~= Seq::<char>::empty());
    assert(cur@ =~= Seq::<char>::empty());
    while i < cs.len()
        invariant
            i <= cs@.len(),
            cs@ == s@,
            split_nl(s@.take(i as int)) == raw.push(cur@),
            out@.len() == raw.len(),
            forall|k: int| 0 <= k < raw.len() ==> #[trigger] out@[k]@ == strip_cr(raw[k]),
        decreases cs.len() - i,
    {
        let c = cs[i];
        assert(s@.take(i + 1).drop_last() =~= s@.take(i as int));
        assert(s@.take(i + 1).last() == c);
        if c == '\n' {
            let n = cur.len();
            let line = if n > 0 && cur[n - 1] == '\r' {
                crate::strs::slice_string(cur.as_slice(), 0, n - 1)
            } else {
                crate::strs::slice_string(cur.as_slice(), 0, n)
            };
            assert(cur@.subrange(0, n as int) =~= cur@);
            assert(n > 0 ==> cur@.subrange(0, n - 1) =~= cur@.drop_last());
            proof {
                raw = raw.push(cur@);
            }
            out.push(line);
            cur = Vec::new();
            assert(raw.push(cur@) =~= split_nl(s@.take(i + 1)));
        } else {
            let ghost before = cur@;
            cur.push(c);
            assert(raw.push(cur@) =~= raw.push(before).update(raw.len() as int, before.push(c)));
        }
        i = i + 1;
    }
    assert(s@.take(cs@.len() as int) =~= s@);
    let segs = Ghost(split_nl(s@));
    if cur.len() > 0 {
        let n = cur.len();
        assert(cur@.subrange(0, n as int) =~= cur@);
        out.push(crate::strs::slice_string(cur.as_slice(), 0, n));
    }
    assert forall|k: int| 0 <= k < out@.len() implies #[trigger] out@[k]@ == lines(s@)[k] by {
        if k < raw.len() {
            assert(segs@[k] == raw[k]);
        }
    }
    out
}

/// The number of leading characters satisfying `p`.
pub open spec fn lead_count(s: Seq<char>, p: spec_fn(char) -> bool) -> nat
    decreases s.len(),
{
    if s.len() > 0 && p(s[0]) {
        1 + lead_count(s.drop_first(), p)
    } else {
        0
    }
}

/// The number of trailing characters satisfying `p`.
pub open spec fn trail_count(s: Seq<char>, p: spec_fn(char) -> bool) -> nat
    decreases s.len(),
{
    if s.len() > 0 && p(s.last()) {
        1 + trail_count(s.drop_last(), p)
    } else {
        0
    }
}

pub proof fn lemma_lead_count_bound(s: Seq<char>, p: spec_fn(char) -> bool)
    ensures
        lead_count(s, p) <= s.len(),
    decreases s.len(),
{
    if s.len() > 0 && p(s[0]) {
        lemma_lead_count_bound(s.drop_first(), p);
    }
}

pub proof fn lemma_trail_count_bound(s: Seq<char>, p: spec_fn(char) -> bool)
    ensures
        trail_count(s, p) <= s.len(),
    decreases s.len(),
{
    if s.len() > 0 && p(s.last()) {
        lemma_trail_count_bound(s.drop_last(), p);
    }
}

/// `s` without leading characters satisfying `p` (`trim_start_matches`).
pub open spec fn trim_start_by(s: Seq<char>, p: spec_fn(char) -> bool) -> Seq<char> {
    s.skip(lead_count(s, p) as int)
}

/// `s` without trailing characters satisfying `p` (`trim_end_matches`).
pub open spec fn trim_end_by(s: Seq<char>, p: spec_fn(char) -> bool) -> Seq<char> {
    s.take(s.len() - trail_count(s, p))
}

pub open spec fn white() -> spec_fn(char) -> bool {
    |c: char| is_white(c)
}

/// `s` without leading whitespace (`str::trim_start`).
pub open spec fn trim_start_s(s: Seq<char>) -> Seq<char> {
    trim_start_by(s, white())
}

/// `s` without surrounding whitespace (`str::trim`).
pub open spec fn trim_s(s: Seq<char>) -> Seq<char> {
    trim_end_by(trim_start_by(s, white()), white())
}

pub proof fn lemma_lead_step(s: Seq<char>, i: int, p: spec_fn(char) -> bool)
    requires
        0 <= i < s.len(),
        p(s[i]),
    ensures
        lead_count(s.skip(i), p) == 1 + lead_count(s.skip(i + 1), p),
{
    assert(s.skip(i).drop_first() =~= s.skip(i + 1));
}

proof fn lemma_trail_step(s: Seq<char>, j: int, p: spec_fn(char) -> bool)
    requires
        0 < j <= s.len(),
        p(s[j - 1]),
    ensures
        trail_count(s.take(j), p) == 1 + trail_count(s.take(j - 1), p),
{
    assert(s.take(j).drop_last() =~= s.take(j - 1));
}

/// Every character of `s` is whitespace.
pub open spec fn all_white(s: Seq<char>) -> bool {
    forall|i: int| 0 <= i < s.len() ==> is_white(#[trigger] s[i])
}

proof fn lemma_lead_white_prefix(w: Seq<char>, s: Seq<char>)
    requires
        all_white(w),
    ensures
        lead_count(w + s, white()) == w.len() + lead_count(s, white()),
    decreases w.len(),
{
    if w.len() > 0 {
        assert((w + s)[0] == w[0]);
        assert((w + s).drop_first() =~= w.drop_first() + s);
        lemma_lead_white_prefix(w.drop_first(), s);
    } else {
        assert(w + s =~= s);
    }
}

proof fn lemma_trail_white_suffix(s: Seq<char>, w: Seq<char>)
    requires
        all_white(w),
    ensures
        trail_count(s + w, white()) == w.len() + trail_count(s, white()),
    decreases w.len(),
{
    if w.len() > 0 {
        assert((s + w).last() == w.last());
        assert((s + w).drop_last() =~= s + w.drop_last());
        lemma_trail_white_suffix(s, w.drop_last());
    } else {
        assert(s + w =~= s);
    }
}

proof fn lemma_lead_stops_before_end(s: Seq<char>, w: Seq<char>)
    requires
        lead_count(s, white()) < s.len(),
    ensures
        lead_count(s + w, white()) == lead_count(s, white()),
    decreases s.len(),
{
    if s.len() > 0 && is_white(s[0]) {
        assert((s + w)[0] == s[0]);
        assert((s + w).drop_first() =~= s.drop_first() + w);
        lemma_lead_stops_before_end(s.drop_first(), w);
    } else {
        assert((s + w)[0] == s[0]);
    }
}

/// Whitespace around a text does not change it once trimmed: `trim` of `a + s + b`, with
/// `a` and `b` all whitespace, is `trim` of `s`.
pub proof fn lemma_trim_padded(a: Seq<char>, s: Seq<char>, b: Seq<char>)
    requires
        all_white(a),
        all_white(b),
    ensures
        trim_s(a + s + b) == trim_s(s),
{
    let x = a + s + b;
    assert(x =~= a + (s + b));
    lemma_lead_white_prefix(a, s + b);
    assert(lead_count(x, white()) == a.len() + lead_count(s + b, white()));
    lemma_lead_count_bound(s + b, white());
    assert(trim_start_by(x, white()) =~= trim_start_by(s + b, white()));
    lemma_lead_count_bound(s, white());
    if lead_count(s, white()) < s.len() {
        lemma_lead_stops_before_end(s, b);
        let ts = trim_start_by(s, white());
        assert(trim_start_by(s + b, white()) =~= ts + b);
        lemma_trail_white_suffix(ts, b);
        lemma_trail_count_bound(ts, white());
        assert((ts + b).take((ts + b).len() - trail_count(ts + b, white())) =~= ts.take(
            ts.len() - trail_count(ts, white()),
        ));
    } else {
        assert(trim_start_by(s, white()) =~= Seq::<char>::empty());
        assert(all_white(s)) by {
            assert forall|i: int| 0 <= i < s.len() implies is_white(#[trigger] s[i]) by {
                lemma_lead_covers(s, i);
            }
        }
        assert(all_white(s + b)) by {
            assert forall|i: int| 0 <= i < (s + b).len() implies is_white(#[trigger] (s + b)[i]) by {
                if i < s.len() {
                    assert((s + b)[i] == s[i]);
                } else {
                    assert((s + b)[i] == b[i - s.len()]);
                }
            }
        }
        lemma_lead_white_prefix(s + b, Seq::<char>::empty());
        assert((s + b) + Seq::<char>::empty() =~= s + b);
        assert(trim_start_by(s + b, white()) =~= Seq::<char>::empty());
        assert(trail_count(Seq::<char>::empty(), white()) == 0);
    }
}

proof fn lemma_lead_covers(s: Seq<char>, i: int)
    requires
        0 <= i < lead_count(s, white()),
    ensures
        is_white(s[i]),
    decreases s.len(),
{
    lemma_lead_count_bound(s, white());
    if i > 0 {
        assert(s.drop_first()[i - 1] == s[i]);
        lemma_lead_covers(s.drop_first(), i - 1);
    }
}

/// The number of leading whitespace characters of `cs`.
pub fn count_lead_white(cs: &[char]) -> (n: usize)
    ensures
        n == lead_count(cs@, white()),
{
    let mut i: usize = 0;
    assert(cs@.skip(0) =~= cs@);
    while i < cs.len() && is_white_char(cs[i])
        invariant
            i <= cs@.len(),
            lead_count(cs@, white()) == i + lead_count(cs@.skip(i as int), white()),
        decreases cs.len() - i,
    {
        proof {
            lemma_lead_step(cs@, i as int, white());
        }
        i = i + 1;
    }
    if i < cs.len() {
        assert(cs@.skip(i as int)[0] == cs@[i as int]);
    } else {
        assert(cs@.skip(i as int).len() == 0);
    }
    i
}

/// The number of trailing whitespace characters among the first `end` characters of `cs`.
pub fn count_trail_white(cs: &[char], end: usize) -> (n: usize)
    requires
        end <= cs@.len(),
    ensures
        n == trail_count(cs@.take(end as int), white()),
        n <= end,
{
    let mut j: usize = end;
    assert(cs@.take(end as int).take(end as int) =~= cs@.take(end as int));
    while j > 0 && is_white_char(cs[j - 1])
        invariant
            j <= end <= cs@.len(),
            trail_count(cs@.take(end as int), white()) == (end - j) + trail_count(cs@.take(j as int), white()),
        decreases j,
    {
        proof {
            lemma_trail_step(cs@, j as int, white());
        }
        j = j - 1;
    }
    if j > 0 {
        assert(cs@.take(j as int).last() == cs@[j - 1]);
    }
    end - j
}

/// `s` without surrounding whitespace.
pub fn trim_str(s: &str) -> (r: String)
    ensures
        r@ == trim_s(s@),
{
    let cs = chars_of(s);
    let a = count_lead_white(cs.as_slice());
    proof {
        lemma_lead_count_bound(s@, white());
    }
    let rest = slice_string(cs.as_slice(), a, cs.len());
    let rc = chars_of(rest.as_str());
    assert(rc@ == trim_start_by(s@, white()));
    let t = count_trail_white(rc.as_slice(), rc.len());
    assert(rc@.take(rc@.len() as int) =~= rc@);
    slice_string(rc.as_slice(), 0, rc.len() - t)
}

/// `s` without leading whitespace.
pub fn trim_start_str(s: &str) -> (r: String)
    ensures
        r@ == trim_start_s(s@),
{
    let cs = chars_of(s);
    let a = count_lead_white(cs.as_slice());
    proof {
        lemma_lead_count_bound(s@, white());
    }
    slice_string(cs.as_slice(), a, cs.len())
}

pub open spec fn is_char(c: char) -> spec_fn(char) -> bool {
    |x: char| x == c
}

/// `s` without trailing copies of `c` (`trim_end_matches(c)`).
pub fn trim_end_char(s: &str, c: char) -> (r: String)
    ensures
        r@ == trim_end_by(s@, is_char(c)),
{
    let cs = chars_of(s);
    let mut j: usize = cs.len();
    assert(cs@.take(j as int) =~= cs@);
    while j > 0 && cs[j - 1] == c
        invariant
            j <= cs@.len(),
            cs@ == s@,
            trail_count(s@, is_char(c)) == (cs@.len() - j) + trail_count(cs@.take(j as int), is_char(c)),
        decreases j,
    {
        proof {
            lemma_trail_step(cs@, j as int, is_char(c));
        }
        j = j - 1;
    }
    if j > 0 {
        assert(cs@.take(j as int).last() == cs@[j - 1]);
    }
    slice_string(cs.as_slice(), 0, j)
}

/// `s` without leading copies of `c` (`trim_start_matches(c)`).
pub fn trim_start_char(s: &str, c: char) -> (r: String)
    ensures
        r@ == trim_start_by(s@, is_char(c)),
{
    let cs = chars_of(s);
    let mut i: usize = 0;
    assert(cs@.skip(0) =~= cs@);
    while i < cs.len() && cs[i] == c
        invariant
            i <= cs@.len(),
            cs@ == s@,
            lead_count(s@, is_char(c)) == i + lead_count(cs@.skip(i as int), is_char(c)),
        decreases cs.len() - i,
    {
        proof {
            lemma_lead_step(cs@, i as int, is_char(c));
        }
        i = i + 1;
    }
    if i < cs.len() {
        assert(cs@.skip(i as int)[0] == cs@[i as int]);
    } else {
        assert(cs@.skip(i as int).len() == 0);
    }
    slice_string(cs.as_slice(), i, cs.len())
}

/// Whether `s` starts with `p`.
pub fn starts_with_str(s: &str, p: &str) -> (b: bool)
    ensures
        b == has_prefix(s@, p@),
{
    let cs = chars_of(s);
    let cp = chars_of(p);
    starts_with(cs.as_slice(), cp.as_slice())
}

/// The part of `s` before the first occurrence of `p`, or all of `s`
/// (`s.split(p).next()`).
pub open spec fn before_first(s: Seq<char>, p: Seq<char>) -> Seq<char> {
    match find_s(s, p) {
        Some(i) => s.take(i),
        None => s,
    }
}

pub fn before_first_str(s: &str, p: &str) -> (r: String)
    ensures
        r@ == before_first(s@, p@),
{
    let cs = chars_of(s);
    let cp = chars_of(p);
    match find_chars(cs.as_slice(), cp.as_slice()) {
        Some(i) => {
            proof {
                lemma_find_from(s@, p@, 0);
            }
            slice_string(cs.as_slice(), 0, i)
        },
        None => {
            assert(cs@.subrange(0, cs@.len() as int) =~= cs@);
            slice_string(cs.as_slice(), 0, cs.len())
        },
    }
}

/// `s` after the prefix `p`, if it starts with `p` (`strip_prefix`).
pub open spec fn after_prefix(s: Seq<char>, p: Seq<char>) -> Option<Seq<char>> {
    if has_prefix(s, p) {
        Some(s.skip(p.len() as int))
    } else {
        None
    }
}

pub fn strip_prefix_str(s: &str, p: &str) -> (r: Option<String>)
    ensures
        match r {
            Some(x) => after_prefix(s@, p@) == Some(x@),
            None => after_prefix(s@, p@) is None,
        },
{
    let cs = chars_of(s);
    let cp = chars_of(p);
    if starts_with(cs.as_slice(), cp.as_slice()) {
        Some(slice_string(cs.as_slice(), cp.len(), cs.len()))
    } else {
        None
    }
}

} // verus!
