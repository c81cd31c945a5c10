//! A trigram inverted index for fuzzy symbol search: each three-byte window of a lower-cased,
//! space-padded text maps to the entry ids whose text contains it.

use vstd::prelude::*;
use vstd::utf8::encode_utf8;
use crate::digest::push_utf8;
use crate::parser::strings_v;
use crate::stdtext::{lowercase, to_lower};
use crate::strmap::StrMap;
use crate::text::{push_char, push_str, str_eq, string_from};

verus! {

/// The bytes whose windows are a text's trigrams: two spaces, the lower-cased text, two
/// spaces, in UTF-8.
pub open spec fn padded_bytes(text: Seq<char>) -> Seq<u8> {
    encode_utf8(seq![' ', ' '] + lowercase(text) + seq![' ', ' '])
}

/// A trigram as a key: its three bytes, each as the character of that code point.
pub open spec fn tri_key(b: Seq<u8>, i: int) -> Seq<char> {
    seq![b[i] as char, b[i + 1] as char, b[i + 2] as char]
}

/// The trigrams of a text, in order, repeats included.
pub open spec fn trigrams(text: Seq<char>) -> Seq<Seq<char>> {
    let b = padded_bytes(text);
    Seq::new(if b.len() >= 2 { (b.len() - 2) as nat } else { 0 }, |i: int| tri_key(b, i))
}

/// The ids listed under a trigram (none when it is absent).
pub open spec fn ids_under(m: Map<Seq<char>, Seq<Seq<char>>>, t: Seq<char>) -> Seq<Seq<char>> {
    if m.dom().contains(t) {
        m[t]
    } else {
        Seq::empty()
    }
}

/// The index after listing `id` under each of `tris`, once per occurrence.
pub open spec fn add_id(m: Map<Seq<char>, Seq<Seq<char>>>, tris: Seq<Seq<char>>, id: Seq<char>) -> Map<
    Seq<char>,
    Seq<Seq<char>>,
>
    decreases tris.len(),
{
    if tris.len() == 0 {
        m
    } else {
        let m1 = add_id(m, tris.drop_last(), id);
        m1.insert(tris.last(), ids_under(m1, tris.last()).push(id))
    }
}

/// The index after dropping `id` from the lists of each of `tris` that is present.
pub open spec fn drop_id(m: Map<Seq<char>, Seq<Seq<char>>>, tris: Seq<Seq<char>>, id: Seq<char>) -> Map<
    Seq<char>,
    Seq<Seq<char>>,
>
    decreases tris.len(),
{
    if tris.len() == 0 {
        m
    } else {
        let m1 = drop_id(m, tris.drop_last(), id);
        if m1.dom().contains(tris.last()) {
            m1.insert(tris.last(), m1[tris.last()].filter(|x: Seq<char>| x != id))
        } else {
            m1
        }
    }
}

/// The trigram inverted index.
pub struct TrigramIndex {
    index: StrMap<Vec<String>>,
}

/// The trigram keys of a text, with their specification.
fn trigram_keys(text: &str) -> (r: Vec<String>)
    ensures
        strings_v(r@) == trigrams(text@),
{
    let lower = to_lower(text);
    let mut padded = string_from("  ");
    push_str(&mut padded, lower.as_str());
    push_str(&mut padded, "  ");
    proof {
        reveal_strlit("  ");
    }
    assert(padded@ =~= seq![' ', ' '] + lowercase(text@) + seq![' ', ' ']);
    let mut b: Vec<u8> = Vec::new();
    push_utf8(&mut b, padded.as_str());
    assert(b@ =~= padded_bytes(text@));
    let n = b.len();
    let count: usize = if n >= 2 {
        n - 2
    } else {
        0
    };
    let mut r: Vec<String> = Vec::new();
    let mut i: usize = 0;
    while i < count
        invariant
            i <= count,
            b@ == padded_bytes(text@),
            n == b@.len(),
            count == if n >= 2 { n - 2 } else { 0 },
            strings_v(r@) == trigrams(text@).take(i as int),
        decreases count - i,
    {
        let mut k = String::new();
        push_char(&mut k, b[i] as char);
        push_char(&mut k, b[i + 1] as char);
        push_char(&mut k, b[i + 2] as char);
        let ghost before = strings_v(r@);
        assert(k@ =~= tri_key(b@, i as int));
        r.push(k);
        assert(strings_v(r@) =~= before.push(k@));
        assert(trigrams(text@).take(i + 1) =~= trigrams(text@).take(i as int).push(tri_key(b@, i as int)));
        i = i + 1;
    }
    assert(trigrams(text@).take(count as int) =~= trigrams(text@));
    r
}

impl TrigramIndex {
    /// Trigram key to the ids listed under it.
    pub closed spec fn lists(&self) -> Map<Seq<char>, Seq<Seq<char>>> {
        self.index.map().map_values(|v: Vec<String>| strings_v(v@))
    }

    pub fn new() -> (t: Self)
        ensures
            t.lists() == Map::<Seq<char>, Seq<Seq<char>>>::empty(),
    {
        let t = TrigramIndex { index: StrMap::new() };
        assert(t.lists() =~= Map::<Seq<char>, Seq<Seq<char>>>::empty());
        t
    }

    /// Lists `entry_id` under every trigram of `text`.
    pub fn insert(&mut self, text: &str, entry_id: &str)
        ensures
            final(self).lists() == add_id(old(self).lists(), trigrams(text@), entry_id@),
    {
        let keys = trigram_keys(text);
        let ghost tv = strings_v(keys@);
        let ghost m0 = self.lists();
        let mut i: usize = 0;
        assert(tv.take(0) =~= Seq::<Seq<char>>::empty());
        while i < keys.len()
            invariant
                i <= keys@.len(),
                tv == strings_v(keys@),
                tv == trigrams(text@),
                self.lists() == add_id(m0, tv.take(i as int), entry_id@),
            decreases keys.len() - i,
        {
            let key = &keys[i];
            assert(tv.take(i + 1).drop_last() =~= tv.take(i as int));
            assert(tv.take(i + 1).last() == key@);
            let ghost m1 = self.lists();
            let mut list = match self.index.remove(key.as_str()) {
                Some(v) => v,
                None => Vec::new(),
            };
            let ghost l0 = strings_v(list@);
            assert(l0 == ids_under(m1, key@));
            list.push(string_from(entry_id));
            assert(strings_v(list@) =~= l0.push(entry_id@));
            self.index.insert(key.clone(), list);
            assert(self.lists() =~= m1.insert(key@, ids_under(m1, key@).push(entry_id@)));
            i = i + 1;
        }
        assert(tv.take(tv.len() as int) =~= tv);
    }

    /// Drops `entry_id` from the lists of every trigram of `text`.
    pub fn remove(&mut self, text: &str, entry_id: &str)
        ensures
            final(self).lists() == drop_id(old(self).lists(), trigrams(text@), entry_id@),
    {
        let keys = trigram_keys(text);
        let ghost tv = strings_v(keys@);
        let ghost m0 = self.lists();
        let mut i: usize = 0;
        assert(tv.take(0) =~= Seq::<Seq<char>>::empty());
        while i < keys.len()
            invariant
                i <= keys@.len(),
                tv == strings_v(keys@),
                tv == trigrams(text@),
                self.lists() == drop_id(m0, tv.take(i as int), entry_id@),
            decreases keys.len() - i,
        {
            let key = &keys[i];
            assert(tv.take(i + 1).drop_last() =~= tv.take(i as int));
            assert(tv.take(i + 1).last() == key@);
            let ghost m1 = self.lists();
            match self.index.remove(key.as_str()) {
                Some(list) => {
                    let kept = retain_other(&list, entry_id);
                    self.index.insert(key.clone(), kept);
                    assert(self.lists() =~= m1.insert(
                        key@,
                        m1[key@].filter(|x: Seq<char>| x != entry_id@),
                    ));
                },
                None => {
                    assert(self.lists() =~= m1);
                },
            }
            i = i + 1;
        }
        assert(tv.take(tv.len() as int) =~= tv);
    }

}

/// The list without `id`.
fn retain_other(list: &Vec<String>, id: &str) -> (r: Vec<String>)
    ensures
        strings_v(r@) == strings_v(list@).filter(|x: Seq<char>| x != id@),
{
    let ghost lv = strings_v(list@);
    let mut r: Vec<String> = Vec::new();
    let mut i: usize = 0;
    proof {
        reveal(Seq::filter);
    }
    assert(lv.take(0) =~= Seq::<Seq<char>>::empty());
    while i < list.len()
        invariant
            i <= list@.len(),
            lv == strings_v(list@),
            strings_v(r@) == lv.take(i as int).filter(|x: Seq<char>| x != id@),
        decreases list.len() - i,
    {
        proof {
            reveal(Seq::filter);
        }
        assert(lv.take(i + 1).drop_last() =~= lv.take(i as int));
        assert(lv.take(i + 1).last() == list@[i as int]@);
        if !str_eq(list[i].as_str(), id) {
            let ghost before = strings_v(r@);
            let x = list[i].clone();
            r.push(x);
            assert(strings_v(r@) =~= before.push(x@));
        }
        i = i + 1;
    }
    assert(lv.take(lv.len() as int) =~= lv);
    r
}

/// `x` placed into `s` before the first element with a smaller count (after all elements
/// with a count at least as large).
pub open spec fn insert_desc(s: Seq<(Seq<char>, nat)>, x: (Seq<char>, nat)) -> Seq<(Seq<char>, nat)>
    decreases s.len(),
{
    if s.len() == 0 {
        seq![x]
    } else if s[0].1 < x.1 {
        seq![x] + s
    } else {
        seq![s[0]] + insert_desc(s.drop_first(), x)
    }
}

/// Stable sort by count, largest first: ties keep their order.
pub open spec fn sort_desc(s: Seq<(Seq<char>, nat)>) -> Seq<(Seq<char>, nat)>
    decreases s.len(),
{
    if s.len() == 0 {
        Seq::empty()
    } else {
        insert_desc(sort_desc(s.drop_last()), s.last())
    }
}

proof fn lemma_insert_desc_at(s: Seq<(Seq<char>, nat)>, x: (Seq<char>, nat), pos: int)
    requires
        0 <= pos <= s.len(),
        forall|j: int| 0 <= j < pos ==> !(s[j].1 < x.1),
        pos < s.len() ==> s[pos].1 < x.1,
    ensures
        insert_desc(s, x) == s.take(pos) + seq![x] + s.skip(pos),
    decreases s.len(),
{
    if s.len() == 0 {
        assert(s.take(pos) + seq![x] + s.skip(pos) =~= seq![x]);
    } else if pos == 0 {
        assert(s.take(0) + seq![x] + s.skip(0) =~= seq![x] + s);
    } else {
        lemma_insert_desc_at(s.drop_first(), x, pos - 1);
        assert(seq![s[0]] + (s.drop_first().take(pos - 1) + seq![x] + s.drop_first().skip(pos - 1))
            =~= s.take(pos) + seq![x] + s.skip(pos));
    }
}

pub open spec fn pairs_nat(v: Seq<(String, usize)>) -> Seq<(Seq<char>, nat)> {
    v.map_values(|p: (String, usize)| (p.0@, p.1 as nat))
}

/// The position of `id` in a tally, if it is there.
pub open spec fn tally_pos(t: Seq<(Seq<char>, nat)>, id: Seq<char>) -> Option<int>
    decreases t.len(),
{
    if t.len() == 0 {
        None
    } else if t.last().0 == id {
        Some(t.len() - 1)
    } else {
        tally_pos(t.drop_last(), id)
    }
}

/// The tally after counting `id` once more: its count goes up, or it is appended with one.
pub open spec fn tally_one(t: Seq<(Seq<char>, nat)>, id: Seq<char>) -> Seq<(Seq<char>, nat)> {
    match tally_pos(t, id) {
        Some(j) => t.update(j, (id, t[j].1 + 1)),
        None => t.push((id, 1)),
    }
}

/// The tally after counting each of `ids`.
pub open spec fn tally_ids(t: Seq<(Seq<char>, nat)>, ids: Seq<Seq<char>>) -> Seq<(Seq<char>, nat)>
    decreases ids.len(),
{
    if ids.len() == 0 {
        t
    } else {
        tally_one(tally_ids(t, ids.drop_last()), ids.last())
    }
}

/// The ids of `s` in order of first appearance, each once.
pub open spec fn distinct_ids(s: Seq<Seq<char>>) -> Seq<Seq<char>>
    decreases s.len(),
{
    if s.len() == 0 {
        Seq::empty()
    } else {
        let p = distinct_ids(s.drop_last());
        if p.contains(s.last()) {
            p
        } else {
            p.push(s.last())
        }
    }
}

pub open spec fn no_dups(s: Seq<Seq<char>>) -> bool {
    forall|i: int, j: int| 0 <= i < j < s.len() ==> s[i] != s[j]
}

/// For each id listed under the query trigrams, the number of query trigrams that list it
/// (an id listed twice under one trigram counts once), in order of first appearance.
pub open spec fn tally_s(m: Map<Seq<char>, Seq<Seq<char>>>, tris: Seq<Seq<char>>) -> Seq<(Seq<char>, nat)>
    decreases tris.len(),
{
    if tris.len() == 0 {
        Seq::empty()
    } else {
        tally_ids(tally_s(m, tris.drop_last()), distinct_ids(ids_under(m, tris.last())))
    }
}

proof fn lemma_distinct_ids(s: Seq<Seq<char>>)
    ensures
        distinct_ids(s).len() <= s.len(),
        no_dups(distinct_ids(s)),
    decreases s.len(),
{
    if s.len() > 0 {
        lemma_distinct_ids(s.drop_last());
    }
}

/// Each id of `r` appears once.
pub open spec fn keys_distinct(t: Seq<(Seq<char>, nat)>) -> bool {
    forall|i: int, j: int| 0 <= i < j < t.len() ==> t[i].0 != t[j].0
}

proof fn lemma_tally_absent(t: Seq<(Seq<char>, nat)>, id: Seq<char>)
    ensures
        tally_pos(t, id) is None ==> forall|j: int| 0 <= j < t.len() ==> t[j].0 != id,
    decreases t.len(),
{
    if t.len() > 0 {
        lemma_tally_absent(t.drop_last(), id);
        if tally_pos(t, id) is None {
            assert forall|j: int| 0 <= j < t.len() implies t[j].0 != id by {
                if j < t.len() - 1 {
                    assert(t[j] == t.drop_last()[j]);
                }
            }
        }
    }
}

/// Counting distinct ids raises each count by at most one, and only for those ids.
proof fn lemma_tally_distinct(t: Seq<(Seq<char>, nat)>, d: Seq<Seq<char>>, n: int)
    requires
        keys_distinct(t),
        counts_bounded(t, n),
        no_dups(d),
        n >= 0,
    ensures
        keys_distinct(tally_ids(t, d)),
        counts_bounded(tally_ids(t, d), n + 1),
        forall|j: int| 0 <= j < tally_ids(t, d).len() && !d.contains(#[trigger] tally_ids(t, d)[j].0)
            ==> tally_ids(t, d)[j].1 <= n,
    decreases d.len(),
{
    if d.len() > 0 {
        let dp = d.drop_last();
        let x = d.last();
        lemma_tally_distinct(t, dp, n);
        let tp = tally_ids(t, dp);
        lemma_tally_pos(tp, x);
        lemma_tally_absent(tp, x);
        assert(!dp.contains(x)) by {
            if dp.contains(x) {
                let k = choose|k: int| 0 <= k < dp.len() && dp[k] == x;
                assert(d[k] == d[d.len() - 1]);
            }
        }
        let r = tally_ids(t, d);
        assert forall|j: int| 0 <= j < r.len() && !d.contains(#[trigger] r[j].0) implies r[j].1 <= n by {
            assert(r[j].0 != x);
            assert(!dp.contains(r[j].0)) by {
                if dp.contains(r[j].0) {
                    let k = choose|k: int| 0 <= k < dp.len() && dp[k] == r[j].0;
                    assert(d[k] == r[j].0);
                }
            }
            if j < tp.len() {
                assert(r[j] == tp[j]);
            }
        }
        match tally_pos(tp, x) {
            Some(p) => {
                assert(!dp.contains(tp[p].0));
                assert(tp[p].1 <= n);
            },
            None => {},
        }
        assert forall|j: int| 0 <= j < r.len() implies (#[trigger] r[j]).1 <= n + 1 by {
            match tally_pos(tp, x) {
                Some(p) => {
                    if j != p {
                        assert(r[j] == tp[j]);
                    }
                },
                None => {
                    if j < tp.len() {
                        assert(r[j] == tp[j]);
                    }
                },
            }
        }
        assert(keys_distinct(r)) by {
            assert forall|a: int, b: int| 0 <= a < b < r.len() implies r[a].0 != r[b].0 by {
                match tally_pos(tp, x) {
                    Some(p) => {
                        assert(r[a].0 == tp[a].0);
                        assert(r[b].0 == tp[b].0);
                    },
                    None => {
                        if b < tp.len() {
                            assert(r[a] == tp[a]);
                            assert(r[b] == tp[b]);
                        } else {
                            assert(r[a] == tp[a]);
                        }
                    },
                }
            }
        }
    }
}

/// Each id of a tally is counted for at most as many query trigrams as there are.
proof fn lemma_tally_s_bounded(m: Map<Seq<char>, Seq<Seq<char>>>, tris: Seq<Seq<char>>)
    ensures
        keys_distinct(tally_s(m, tris)),
        counts_bounded(tally_s(m, tris), tris.len() as int),
    decreases tris.len(),
{
    if tris.len() > 0 {
        lemma_tally_s_bounded(m, tris.drop_last());
        lemma_distinct_ids(ids_under(m, tris.last()));
        lemma_tally_distinct(tally_s(m, tris.drop_last()), distinct_ids(ids_under(m, tris.last())), tris.len() - 1);
        assert(counts_bounded(tally_s(m, tris), tris.len() as int));
    }
}

pub open spec fn counts_bounded(t: Seq<(Seq<char>, nat)>, n: int) -> bool {
    forall|j: int| 0 <= j < t.len() ==> (#[trigger] t[j]).1 <= n
}

/// Whether `x` is in the list.
fn listed(r: &Vec<String>, x: &str) -> (b: bool)
    ensures
        b == strings_v(r@).contains(x@),
{
    let mut k: usize = 0;
    while k < r.len()
        invariant
            k <= r@.len(),
            forall|j: int| 0 <= j < k ==> strings_v(r@)[j] != x@,
        decreases r.len() - k,
    {
        if str_eq(r[k].as_str(), x) {
            assert(strings_v(r@)[k as int] == x@);
            return true;
        }
        k = k + 1;
    }
    false
}

/// The ids of the list in order of first appearance, each once.
fn distinct_list(list: &Vec<String>) -> (r: Vec<String>)
    ensures
        strings_v(r@) == distinct_ids(strings_v(list@)),
{
    let ghost lv = strings_v(list@);
    let mut r: Vec<String> = Vec::new();
    let mut i: usize = 0;
    assert(lv.take(0) =~= Seq::<Seq<char>>::empty());
    assert(strings_v(r@) =~= Seq::<Seq<char>>::empty());
    while i < list.len()
        invariant
            i <= list@.len(),
            lv == strings_v(list@),
            strings_v(r@) == distinct_ids(lv.take(i as int)),
        decreases list.len() - i,
    {
        assert(lv.take(i + 1).drop_last() =~= lv.take(i as int));
        assert(lv.take(i + 1).last() == list@[i as int]@);
        if !listed(&r, list[i].as_str()) {
            let ghost before = strings_v(r@);
            let x = list[i].clone();
            r.push(x);
            assert(strings_v(r@) =~= before.push(x@));
        }
        i = i + 1;
    }
    assert(lv.take(lv.len() as int) =~= lv);
    r
}

/// Finds `id` in the tally.
fn find_in_tally(t: &Vec<(String, usize)>, id: &str) -> (r: Option<usize>)
    ensures
        match r {
            Some(j) => tally_pos(pairs_nat(t@), id@) == Some(j as int),
            None => tally_pos(pairs_nat(t@), id@) is None,
        },
{
    let ghost tv = pairs_nat(t@);
    let mut k: usize = t.len();
    assert(tv.take(k as int) =~= tv);
    while k > 0
        invariant
            k <= t@.len(),
            tv == pairs_nat(t@),
            tally_pos(tv, id@) == tally_pos(tv.take(k as int), id@),
        decreases k,
    {
        assert(tv.take(k as int).last() == tv[k - 1]);
        assert(tv.take(k as int).drop_last() =~= tv.take(k - 1));
        if str_eq(t[k - 1].0.as_str(), id) {
            return Some(k - 1);
        }
        k = k - 1;
    }
    None
}

/// Counts each of `ids` once more in the tally.
fn tally_list(t: &mut Vec<(String, usize)>, ids: &Vec<String>, Ghost(bound): Ghost<nat>)
    requires
        counts_bounded(pairs_nat(old(t)@), bound as int),
        bound + ids@.len() <= usize::MAX,
    ensures
        pairs_nat(final(t)@) == tally_ids(pairs_nat(old(t)@), strings_v(ids@)),
        counts_bounded(pairs_nat(final(t)@), bound + ids@.len() as int),
{
    let ghost iv = strings_v(ids@);
    let ghost t0 = pairs_nat(t@);
    let mut i: usize = 0;
    assert(iv.take(0) =~= Seq::<Seq<char>>::empty());
    while i < ids.len()
        invariant
            i <= ids@.len(),
            iv == strings_v(ids@),
            pairs_nat(t@) == tally_ids(t0, iv.take(i as int)),
            counts_bounded(pairs_nat(t@), bound + i),
            bound + ids@.len() <= usize::MAX,
        decreases ids.len() - i,
    {
        assert(iv.take(i + 1).drop_last() =~= iv.take(i as int));
        assert(iv.take(i + 1).last() == ids@[i as int]@);
        let id = &ids[i];
        let ghost before = pairs_nat(t@);
        proof {
            lemma_tally_pos(before, id@);
        }
        match find_in_tally(t, id.as_str()) {
            Some(j) => {
                assert(before[j as int].1 <= bound + i);
                let c = t[j].1;
                t.set(j, (id.clone(), c + 1));
                assert(pairs_nat(t@) =~= before.update(j as int, (id@, before[j as int].1 + 1)));
            },
            None => {
                t.push((id.clone(), 1));
                assert(pairs_nat(t@) =~= before.push((id@, 1)));
            },
        }
        i = i + 1;
    }
    assert(iv.take(iv.len() as int) =~= iv);
}

impl TrigramIndex {
    /// The ids listed under the query's trigrams with their hit counts, most hits first
    /// (ties in order of first appearance), at most `max_results` of them; and the number of
    /// query trigrams. A hit count divided by that number is the share of the query's
    /// trigrams an id matches.
    pub fn search_hits(&self, query: &str, max_results: usize) -> (r: (Vec<(String, usize)>, usize))
        requires
            total_listings(self.lists(), trigrams(query@)) <= usize::MAX,
        ensures
            r.1 == trigrams(query@).len(),
            forall|j: int| 0 <= j < r.0@.len() ==> (#[trigger] r.0@[j]).1 <= r.1,
            pairs_nat(r.0@) == sort_desc(tally_s(self.lists(), trigrams(query@))).take(
                min_int(max_results as int, tally_s(self.lists(), trigrams(query@)).len() as int),
            ),
    {
        let keys = trigram_keys(query);
        let ghost tv = strings_v(keys@);
        let ghost m = self.lists();
        let mut tally: Vec<(String, usize)> = Vec::new();
        let mut i: usize = 0;
        assert(tv.take(0) =~= Seq::<Seq<char>>::empty());
        assert(pairs_nat(tally@) =~= Seq::<(Seq<char>, nat)>::empty());
        while i < keys.len()
            invariant
                i <= keys@.len(),
                tv == strings_v(keys@),
                tv == trigrams(query@),
                m == self.lists(),
                total_listings(m, tv) <= usize::MAX,
                pairs_nat(tally@) == tally_s(m, tv.take(i as int)),
                counts_bounded(pairs_nat(tally@), total_listings(m, tv.take(i as int)) as int),
            decreases keys.len() - i,
        {
            assert(tv.take(i + 1).drop_last() =~= tv.take(i as int));
            assert(tv.take(i + 1).last() == keys@[i as int]@);
            proof {
                lemma_total_listings_prefix(m, tv, i + 1);
            }
            match self.index.get(keys[i].as_str()) {
                Some(ids) => {
                    assert(strings_v(ids@) == ids_under(m, keys@[i as int]@));
                    let d = distinct_list(ids);
                    proof {
                        lemma_distinct_ids(strings_v(ids@));
                    }
                    tally_list(&mut tally, &d, Ghost(total_listings(m, tv.take(i as int))));
                    assert forall|j: int| 0 <= j < pairs_nat(tally@).len() implies (#[trigger] pairs_nat(tally@)[j]).1
                        <= total_listings(m, tv.take(i + 1)) by {}
                },
                None => {
                    assert(ids_under(m, keys@[i as int]@) =~= Seq::<Seq<char>>::empty());
                },
            }
            i = i + 1;
        }
        assert(tv.take(tv.len() as int) =~= tv);
        let ranked = sort_tally(&tally);
        proof {
            lemma_sort_desc_len(pairs_nat(tally@));
        }
        let n = if max_results < ranked.len() {
            max_results
        } else {
            ranked.len()
        };
        let mut out: Vec<(String, usize)> = Vec::new();
        let mut k: usize = 0;
        while k < n
            invariant
                k <= n <= ranked@.len(),
                pairs_nat(out@) == pairs_nat(ranked@).take(k as int),
            decreases n - k,
        {
            let ghost before = pairs_nat(out@);
            let p = (ranked[k].0.clone(), ranked[k].1);
            out.push(p);
            assert(pairs_nat(out@) =~= before.push(pairs_nat(ranked@)[k as int]));
            assert(pairs_nat(ranked@).take(k + 1) =~= pairs_nat(ranked@).take(k as int).push(
                pairs_nat(ranked@)[k as int],
            ));
            k = k + 1;
        }
        assert(pairs_nat(ranked@).take(n as int) == sort_desc(tally_s(m, tv)).take(
            min_int(max_results as int, tally_s(m, tv).len() as int),
        ));
        proof {
            lemma_tally_s_bounded(m, tv);
            lemma_sort_desc_members(tally_s(m, tv));
            assert forall|j: int| 0 <= j < out@.len() implies (#[trigger] out@[j]).1 <= keys@.len() by {
                let y = pairs_nat(out@)[j];
                assert(y == sort_desc(tally_s(m, tv))[j]);
                let k = choose|k: int| 0 <= k < tally_s(m, tv).len() && tally_s(m, tv)[k] == y;
            }
        }
        (out, keys.len())
    }
}

pub open spec fn min_int(a: int, b: int) -> int {
    if a < b {
        a
    } else {
        b
    }
}

proof fn lemma_total_listings_prefix(m: Map<Seq<char>, Seq<Seq<char>>>, tv: Seq<Seq<char>>, i: int)
    requires
        0 <= i <= tv.len(),
    ensures
        total_listings(m, tv.take(i)) <= total_listings(m, tv),
    decreases tv.len() - i,
{
    if i < tv.len() {
        assert(tv.take(i + 1).drop_last() =~= tv.take(i));
        lemma_total_listings_prefix(m, tv, i + 1);
    } else {
        assert(tv.take(i) =~= tv);
    }
}

proof fn lemma_tally_pos(t: Seq<(Seq<char>, nat)>, id: Seq<char>)
    ensures
        match tally_pos(t, id) {
            Some(j) => 0 <= j < t.len() && t[j].0 == id,
            None => true,
        },
    decreases t.len(),
{
    if t.len() > 0 && t.last().0 != id {
        lemma_tally_pos(t.drop_last(), id);
    }
}

proof fn lemma_insert_desc_members(s: Seq<(Seq<char>, nat)>, x: (Seq<char>, nat))
    ensures
        forall|i: int| 0 <= i < insert_desc(s, x).len() ==> #[trigger] insert_desc(s, x)[i] == x || s.contains(
            insert_desc(s, x)[i],
        ),
    decreases s.len(),
{
    if s.len() > 0 {
        if !(s[0].1 < x.1) {
            lemma_insert_desc_members(s.drop_first(), x);
            assert forall|i: int| 0 <= i < insert_desc(s, x).len() implies #[trigger] insert_desc(s, x)[i] == x
                || s.contains(insert_desc(s, x)[i]) by {
                if i > 0 {
                    let y = insert_desc(s.drop_first(), x)[i - 1];
                    assert(insert_desc(s, x)[i] == y);
                    if y != x {
                        let k = choose|k: int| 0 <= k < s.drop_first().len() && s.drop_first()[k] == y;
                        assert(s[k + 1] == y);
                    }
                } else {
                    assert(s[0] == insert_desc(s, x)[0]);
                }
            }
        } else {
            assert forall|i: int| 0 <= i < insert_desc(s, x).len() implies #[trigger] insert_desc(s, x)[i] == x
                || s.contains(insert_desc(s, x)[i]) by {
                if i > 0 {
                    assert(s[i - 1] == insert_desc(s, x)[i]);
                }
            }
        }
    }
}

/// Every element of the sorted tally comes from the tally.
proof fn lemma_sort_desc_members(s: Seq<(Seq<char>, nat)>)
    ensures
        forall|i: int| 0 <= i < sort_desc(s).len() ==> s.contains(#[trigger] sort_desc(s)[i]),
    decreases s.len(),
{
    if s.len() > 0 {
        lemma_sort_desc_members(s.drop_last());
        lemma_insert_desc_members(sort_desc(s.drop_last()), s.last());
        assert forall|i: int| 0 <= i < sort_desc(s).len() implies s.contains(#[trigger] sort_desc(s)[i]) by {
            let y = sort_desc(s)[i];
            if y == s.last() {
                assert(s[s.len() - 1] == y);
            } else {
                let k = choose|k: int| 0 <= k < sort_desc(s.drop_last()).len() && sort_desc(s.drop_last())[k] == y;
                let j = choose|j: int| 0 <= j < s.drop_last().len() && s.drop_last()[j] == y;
                assert(s[j] == y);
            }
        }
    }
}

proof fn lemma_sort_desc_len(s: Seq<(Seq<char>, nat)>)
    ensures
        sort_desc(s).len() == s.len(),
    decreases s.len(),
{
    if s.len() > 0 {
        lemma_sort_desc_len(s.drop_last());
        lemma_insert_desc_len(sort_desc(s.drop_last()), s.last());
    }
}

proof fn lemma_insert_desc_len(s: Seq<(Seq<char>, nat)>, x: (Seq<char>, nat))
    ensures
        insert_desc(s, x).len() == s.len() + 1,
    decreases s.len(),
{
    if s.len() > 0 && !(s[0].1 < x.1) {
        lemma_insert_desc_len(s.drop_first(), x);
    }
}

/// The tally sorted by count, most first, ties in their order.
fn sort_tally(t: &Vec<(String, usize)>) -> (r: Vec<(String, usize)>)
    ensures
        pairs_nat(r@) == sort_desc(pairs_nat(t@)),
{
    let ghost tv = pairs_nat(t@);
    let mut r: Vec<(String, usize)> = Vec::new();
    let mut i: usize = 0;
    assert(tv.take(0) =~= Seq::<(Seq<char>, nat)>::empty());
    assert(pairs_nat(r@) =~= Seq::<(Seq<char>, nat)>::empty());
    while i < t.len()
        invariant
            i <= t@.len(),
            tv == pairs_nat(t@),
            pairs_nat(r@) == sort_desc(tv.take(i as int)),
        decreases t.len() - i,
    {
        assert(tv.take(i + 1).drop_last() =~= tv.take(i as int));
        assert(tv.take(i + 1).last() == tv[i as int]);
        let x = (t[i].0.clone(), t[i].1);
        let ghost rv = pairs_nat(r@);
        let mut pos: usize = 0;
        while pos < r.len() && !(r[pos].1 < x.1)
            invariant
                pos <= r@.len(),
                rv == pairs_nat(r@),
                forall|j: int| 0 <= j < pos ==> !(rv[j].1 < x.1),
            decreases r.len() - pos,
        {
            pos = pos + 1;
        }
        proof {
            lemma_insert_desc_at(rv, (x.0@, x.1 as nat), pos as int);
        }
        r.insert(pos, x);
        assert(pairs_nat(r@) =~= rv.take(pos as int) + seq![(x.0@, x.1 as nat)] + rv.skip(pos as int));
        i = i + 1;
    }
    assert(tv.take(tv.len() as int) =~= tv);
    r
}

/// Whether `id` has an entry in a tally.
pub open spec fn tallied(t: Seq<(Seq<char>, nat)>, id: Seq<char>) -> bool {
    exists|j: int| 0 <= j < t.len() && #[trigger] t[j].0 == id
}

proof fn lemma_tally_one_members(t: Seq<(Seq<char>, nat)>, x: Seq<char>, id: Seq<char>)
    ensures
        tallied(tally_one(t, x), id) <==> (tallied(t, id) || id == x),
{
    lemma_tally_pos(t, x);
    let r = tally_one(t, x);
    match tally_pos(t, x) {
        Some(p) => {
            assert forall|i: int| 0 <= i < r.len() implies #[trigger] r[i].0 == t[i].0 by {}
            if tallied(r, id) {
                let j = choose|j: int| 0 <= j < r.len() && #[trigger] r[j].0 == id;
                assert(t[j].0 == id);
            }
            if tallied(t, id) {
                let j = choose|j: int| 0 <= j < t.len() && #[trigger] t[j].0 == id;
                assert(r[j].0 == id);
            }
            if id == x {
                assert(r[p].0 == id);
            }
        },
        None => {
            if tallied(r, id) {
                let j = choose|j: int| 0 <= j < r.len() && #[trigger] r[j].0 == id;
                if j < t.len() {
                    assert(t[j].0 == id);
                }
            }
            if tallied(t, id) {
                let j = choose|j: int| 0 <= j < t.len() && #[trigger] t[j].0 == id;
                assert(r[j].0 == id);
            }
            if id == x {
                assert(r[t.len() as int].0 == id);
            }
        },
    }
}

proof fn lemma_tally_ids_members(t: Seq<(Seq<char>, nat)>, d: Seq<Seq<char>>, id: Seq<char>)
    ensures
        tallied(tally_ids(t, d), id) <==> (tallied(t, id) || d.contains(id)),
    decreases d.len(),
{
    if d.len() > 0 {
        lemma_tally_ids_members(t, d.drop_last(), id);
        lemma_tally_one_members(tally_ids(t, d.drop_last()), d.last(), id);
        if d.drop_last().contains(id) {
            let k = choose|k: int| 0 <= k < d.drop_last().len() && d.drop_last()[k] == id;
            assert(d[k] == id);
        }
        if d.contains(id) && id != d.last() {
            let k = choose|k: int| 0 <= k < d.len() && d[k] == id;
            assert(d.drop_last()[k] == id);
        }
        if id == d.last() {
            assert(d[d.len() - 1] == id);
        }
    }
}

proof fn lemma_distinct_ids_members(s: Seq<Seq<char>>, id: Seq<char>)
    ensures
        distinct_ids(s).contains(id) <==> s.contains(id),
    decreases s.len(),
{
    if s.len() > 0 {
        lemma_distinct_ids_members(s.drop_last(), id);
        let p = distinct_ids(s.drop_last());
        if s.drop_last().contains(id) {
            let k = choose|k: int| 0 <= k < s.drop_last().len() && s.drop_last()[k] == id;
            assert(s[k] == id);
        }
        if s.contains(id) && id != s.last() {
            let k = choose|k: int| 0 <= k < s.len() && s[k] == id;
            assert(s.drop_last()[k] == id);
        }
        if distinct_ids(s).contains(id) && !p.contains(id) {
            let k = choose|k: int| 0 <= k < distinct_ids(s).len() && distinct_ids(s)[k] == id;
            if !p.contains(s.last()) {
                if k < p.len() {
                    assert(p[k] == id);
                }
            }
        }
        if id == s.last() {
            assert(s[s.len() - 1] == id);
            if !p.contains(id) {
                assert(distinct_ids(s)[p.len() as int] == id);
            }
        }
        if p.contains(id) && !p.contains(s.last()) {
            let k = choose|k: int| 0 <= k < p.len() && p[k] == id;
            assert(distinct_ids(s)[k] == id);
        }
    }
}

/// An id has an entry in the tally of a query exactly when some query trigram lists it.
pub proof fn law_tally_members(m: Map<Seq<char>, Seq<Seq<char>>>, tris: Seq<Seq<char>>, id: Seq<char>)
    ensures
        tallied(tally_s(m, tris), id) <==> exists|k: int|
            0 <= k < tris.len() && (#[trigger] ids_under(m, tris[k])).contains(id),
    decreases tris.len(),
{
    if tris.len() > 0 {
        let p = tris.drop_last();
        law_tally_members(m, p, id);
        lemma_distinct_ids_members(ids_under(m, tris.last()), id);
        lemma_tally_ids_members(tally_s(m, p), distinct_ids(ids_under(m, tris.last())), id);
        if exists|k: int| 0 <= k < tris.len() && (#[trigger] ids_under(m, tris[k])).contains(id) {
            let k = choose|k: int| 0 <= k < tris.len() && (#[trigger] ids_under(m, tris[k])).contains(id);
            if k < p.len() {
                assert(p[k] == tris[k]);
            }
        }
        if exists|k: int| 0 <= k < p.len() && (#[trigger] ids_under(m, p[k])).contains(id) {
            let k = choose|k: int| 0 <= k < p.len() && (#[trigger] ids_under(m, p[k])).contains(id);
            assert(tris[k] == p[k]);
        }
        if ids_under(m, tris.last()).contains(id) {
            assert(ids_under(m, tris[tris.len() - 1]).contains(id));
        }
    }
}

proof fn lemma_insert_desc_keeps(s: Seq<(Seq<char>, nat)>, x: (Seq<char>, nat))
    ensures
        insert_desc(s, x).contains(x),
        forall|i: int| 0 <= i < s.len() ==> insert_desc(s, x).contains(#[trigger] s[i]),
    decreases s.len(),
{
    let r = insert_desc(s, x);
    if s.len() == 0 {
        assert(r[0] == x);
    } else if s[0].1 < x.1 {
        assert(r[0] == x);
        assert forall|i: int| 0 <= i < s.len() implies r.contains(#[trigger] s[i]) by {
            assert(r[i + 1] == s[i]);
        }
    } else {
        let t = s.drop_first();
        lemma_insert_desc_keeps(t, x);
        let k = choose|k: int| 0 <= k < insert_desc(t, x).len() && insert_desc(t, x)[k] == x;
        assert(r[k + 1] == x);
        assert forall|i: int| 0 <= i < s.len() implies r.contains(#[trigger] s[i]) by {
            if i == 0 {
                assert(r[0] == s[0]);
            } else {
                assert(t[i - 1] == s[i]);
                let w = choose|w: int| 0 <= w < insert_desc(t, x).len() && insert_desc(t, x)[w] == t[i - 1];
                assert(r[w + 1] == s[i]);
            }
        }
    }
}

proof fn lemma_sort_desc_keeps(s: Seq<(Seq<char>, nat)>)
    ensures
        forall|i: int| 0 <= i < s.len() ==> sort_desc(s).contains(#[trigger] s[i]),
    decreases s.len(),
{
    if s.len() > 0 {
        let p = s.drop_last();
        lemma_sort_desc_keeps(p);
        lemma_insert_desc_keeps(sort_desc(p), s.last());
        assert forall|i: int| 0 <= i < s.len() implies sort_desc(s).contains(#[trigger] s[i]) by {
            if i < p.len() {
                assert(p[i] == s[i]);
                let w = choose|w: int| 0 <= w < sort_desc(p).len() && sort_desc(p)[w] == p[i];
                assert(sort_desc(p).contains(sort_desc(p)[w]));
            }
        }
    }
}

/// The hits a search for `query` gives when at most `max` are wanted, as (id, count) pairs.
pub open spec fn hits_s(m: Map<Seq<char>, Seq<Seq<char>>>, query: Seq<char>, max: int) -> Seq<
    (Seq<char>, nat),
> {
    let t = tally_s(m, trigrams(query));
    sort_desc(t).take(min_int(max, t.len() as int))
}

/// Right after `id` is listed for a text, a search for that text whose limit leaves room for
/// every hit finds `id`; right after `id` is dropped for the text, a search for it does not.
pub proof fn law_search_after_insert_and_remove(
    m: Map<Seq<char>, Seq<Seq<char>>>,
    text: Seq<char>,
    id: Seq<char>,
    max: int,
)
    requires
        max >= 0,
    ensures
        trigrams(text).len() > 0 && max >= tally_s(add_id(m, trigrams(text), id), trigrams(text)).len()
            ==> tallied(hits_s(add_id(m, trigrams(text), id), text, max), id),
        !tallied(hits_s(drop_id(m, trigrams(text), id), text, max), id),
{
    let tris = trigrams(text);
    law_insert_lists(m, tris, id);
    law_remove_unlists(m, tris, id);
    let ma = add_id(m, tris, id);
    let md = drop_id(m, tris, id);
    law_tally_members(ma, tris, id);
    law_tally_members(md, tris, id);
    let ta = tally_s(ma, tris);
    let td = tally_s(md, tris);
    lemma_sort_desc_len(ta);
    lemma_sort_desc_len(td);
    if tris.len() > 0 && max >= ta.len() {
        assert(ids_under(ma, tris[0]).contains(id));
        let j = choose|j: int| 0 <= j < ta.len() && #[trigger] ta[j].0 == id;
        lemma_sort_desc_keeps(ta);
        assert(sort_desc(ta).contains(ta[j]));
        let w = choose|w: int| 0 <= w < sort_desc(ta).len() && sort_desc(ta)[w] == ta[j];
        assert(sort_desc(ta).take(ta.len() as int) =~= sort_desc(ta));
        assert(hits_s(ma, text, max)[w].0 == id);
    }
    if tallied(hits_s(md, text, max), id) {
        let h = hits_s(md, text, max);
        let j = choose|j: int| 0 <= j < h.len() && #[trigger] h[j].0 == id;
        lemma_sort_desc_members(td);
        assert(h.len() <= td.len());
        assert(sort_desc(td)[j] == h[j]);
        assert(td.contains(sort_desc(td)[j]));
        let w = choose|w: int| 0 <= w < td.len() && td[w] == sort_desc(td)[j];
        assert(td[w].0 == id);
        let k = choose|k: int| 0 <= k < tris.len() && (#[trigger] ids_under(md, tris[k])).contains(id);
        assert(false);
    }
}

/// The count a tally gives `id`: its hits, or zero when it is not there.
pub open spec fn count_of(t: Seq<(Seq<char>, nat)>, id: Seq<char>) -> nat {
    match tally_pos(t, id) {
        Some(j) => t[j].1,
        None => 0,
    }
}

/// The number of query trigrams whose list holds `id`.
pub open spec fn hit_count(m: Map<Seq<char>, Seq<Seq<char>>>, tris: Seq<Seq<char>>, id: Seq<char>) -> nat
    decreases tris.len(),
{
    if tris.len() == 0 {
        0
    } else {
        hit_count(m, tris.drop_last(), id) + if ids_under(m, tris.last()).contains(id) {
            1nat
        } else {
            0nat
        }
    }
}

/// How many times `id` occurs in `s`.
spec fn occurrences(s: Seq<Seq<char>>, id: Seq<char>) -> nat
    decreases s.len(),
{
    if s.len() == 0 {
        0
    } else {
        occurrences(s.drop_last(), id) + if s.last() == id {
            1nat
        } else {
            0nat
        }
    }
}

proof fn lemma_tally_pos_keys(a: Seq<(Seq<char>, nat)>, b: Seq<(Seq<char>, nat)>, id: Seq<char>)
    requires
        a.len() == b.len(),
        forall|i: int| 0 <= i < a.len() ==> (#[trigger] a[i]).0 == b[i].0,
    ensures
        tally_pos(a, id) == tally_pos(b, id),
    decreases a.len(),
{
    if a.len() > 0 {
        assert(a.last().0 == b.last().0);
        assert forall|i: int| 0 <= i < a.drop_last().len() implies (#[trigger] a.drop_last()[i]).0
            == b.drop_last()[i].0 by {
            assert(a[i].0 == b[i].0);
        }
        lemma_tally_pos_keys(a.drop_last(), b.drop_last(), id);
    }
}

proof fn lemma_tally_one_count(t: Seq<(Seq<char>, nat)>, y: Seq<char>, x: Seq<char>)
    ensures
        count_of(tally_one(t, y), x) == count_of(t, x) + if x == y {
            1nat
        } else {
            0nat
        },
{
    lemma_tally_pos(t, y);
    lemma_tally_pos(t, x);
    let r = tally_one(t, y);
    match tally_pos(t, y) {
        Some(j) => {
            assert forall|i: int| 0 <= i < r.len() implies (#[trigger] r[i]).0 == t[i].0 by {}
            lemma_tally_pos_keys(r, t, x);
            if x != y {
                match tally_pos(t, x) {
                    Some(k) => {
                        assert(k != j);
                    },
                    None => {},
                }
            }
        },
        None => {
            assert(r.drop_last() =~= t);
            if x == y {
                assert(tally_pos(r, x) == Some(t.len() as int));
            } else {
                assert(tally_pos(r, x) == tally_pos(t, x));
                match tally_pos(t, x) {
                    Some(k) => {
                        assert(r[k] == t[k]);
                    },
                    None => {},
                }
            }
        },
    }
}

proof fn lemma_tally_ids_count(t: Seq<(Seq<char>, nat)>, d: Seq<Seq<char>>, x: Seq<char>)
    ensures
        count_of(tally_ids(t, d), x) == count_of(t, x) + occurrences(d, x),
    decreases d.len(),
{
    if d.len() > 0 {
        lemma_tally_ids_count(t, d.drop_last(), x);
        lemma_tally_one_count(tally_ids(t, d.drop_last()), d.last(), x);
    }
}

proof fn lemma_occurrences_none(s: Seq<Seq<char>>, x: Seq<char>)
    requires
        !s.contains(x),
    ensures
        occurrences(s, x) == 0,
    decreases s.len(),
{
    if s.len() > 0 {
        assert(s[s.len() - 1] != x);
        assert(!s.drop_last().contains(x)) by {
            if s.drop_last().contains(x) {
                let k = choose|k: int| 0 <= k < s.drop_last().len() && s.drop_last()[k] == x;
                assert(s[k] == x);
            }
        }
        lemma_occurrences_none(s.drop_last(), x);
    }
}

proof fn lemma_occurrences_once(s: Seq<Seq<char>>, x: Seq<char>)
    requires
        no_dups(s),
        s.contains(x),
    ensures
        occurrences(s, x) == 1,
    decreases s.len(),
{
    let p = s.drop_last();
    if s.last() == x {
        assert(!p.contains(x)) by {
            if p.contains(x) {
                let k = choose|k: int| 0 <= k < p.len() && p[k] == x;
                assert(s[k] == s[s.len() - 1]);
            }
        }
        lemma_occurrences_none(p, x);
    } else {
        let k = choose|k: int| 0 <= k < s.len() && s[k] == x;
        assert(p[k] == x);
        lemma_occurrences_once(p, x);
    }
}

proof fn lemma_tally_s_count(m: Map<Seq<char>, Seq<Seq<char>>>, tris: Seq<Seq<char>>, x: Seq<char>)
    ensures
        count_of(tally_s(m, tris), x) == hit_count(m, tris, x),
    decreases tris.len(),
{
    if tris.len() > 0 {
        lemma_tally_s_count(m, tris.drop_last(), x);
        let l = ids_under(m, tris.last());
        lemma_tally_ids_count(tally_s(m, tris.drop_last()), distinct_ids(l), x);
        lemma_distinct_ids(l);
        lemma_distinct_ids_members(l, x);
        if l.contains(x) {
            lemma_occurrences_once(distinct_ids(l), x);
        } else {
            lemma_occurrences_none(distinct_ids(l), x);
        }
    }
}

proof fn lemma_add_id_other(m: Map<Seq<char>, Seq<Seq<char>>>, tris: Seq<Seq<char>>, id: Seq<char>, t: Seq<char>, x: Seq<char>)
    requires
        x != id,
    ensures
        ids_under(add_id(m, tris, id), t).contains(x) == ids_under(m, t).contains(x),
    decreases tris.len(),
{
    if tris.len() > 0 {
        let m1 = add_id(m, tris.drop_last(), id);
        lemma_add_id_other(m, tris.drop_last(), id, t, x);
        if t == tris.last() {
            let l = ids_under(m1, t);
            if l.push(id).contains(x) {
                let k = choose|k: int| 0 <= k < l.push(id).len() && l.push(id)[k] == x;
                assert(l[k] == x);
            }
            if l.contains(x) {
                let k = choose|k: int| 0 <= k < l.len() && l[k] == x;
                assert(l.push(id)[k] == x);
            }
        }
    }
}

proof fn lemma_hit_count_other(m: Map<Seq<char>, Seq<Seq<char>>>, tris: Seq<Seq<char>>, id: Seq<char>, q: Seq<Seq<char>>, x: Seq<char>)
    requires
        x != id,
    ensures
        hit_count(add_id(m, tris, id), q, x) == hit_count(m, q, x),
    decreases q.len(),
{
    if q.len() > 0 {
        lemma_hit_count_other(m, tris, id, q.drop_last(), x);
        lemma_add_id_other(m, tris, id, q.last(), x);
    }
}

/// Listing `id` for a text changes no other id's score in any search: each other id is
/// counted for exactly the query trigrams it was counted for before.
pub proof fn law_insert_keeps_other_scores(
    m: Map<Seq<char>, Seq<Seq<char>>>,
    text: Seq<char>,
    id: Seq<char>,
    query: Seq<char>,
    x: Seq<char>,
)
    requires
        x != id,
    ensures
        count_of(tally_s(add_id(m, trigrams(text), id), trigrams(query)), x) == count_of(
            tally_s(m, trigrams(query)),
            x,
        ),
        tallied(tally_s(add_id(m, trigrams(text), id), trigrams(query)), x) == tallied(
            tally_s(m, trigrams(query)),
            x,
        ),
{
    let ma = add_id(m, trigrams(text), id);
    let q = trigrams(query);
    lemma_tally_s_count(ma, q, x);
    lemma_tally_s_count(m, q, x);
    lemma_hit_count_other(m, trigrams(text), id, q, x);
    law_tally_members(ma, q, x);
    law_tally_members(m, q, x);
    if exists|k: int| 0 <= k < q.len() && (#[trigger] ids_under(ma, q[k])).contains(x) {
        let k = choose|k: int| 0 <= k < q.len() && (#[trigger] ids_under(ma, q[k])).contains(x);
        lemma_add_id_other(m, trigrams(text), id, q[k], x);
    }
    if exists|k: int| 0 <= k < q.len() && (#[trigger] ids_under(m, q[k])).contains(x) {
        let k = choose|k: int| 0 <= k < q.len() && (#[trigger] ids_under(m, q[k])).contains(x);
        lemma_add_id_other(m, trigrams(text), id, q[k], x);
    }
}

/// Right after `id` is listed for a text, a search for any query sharing a trigram with
/// that text finds `id`, when its limit leaves room for every hit.
pub proof fn law_search_finds_inserted(
    m: Map<Seq<char>, Seq<Seq<char>>>,
    text: Seq<char>,
    id: Seq<char>,
    query: Seq<char>,
    max: int,
    k: int,
    k2: int,
)
    requires
        0 <= k < trigrams(query).len(),
        0 <= k2 < trigrams(text).len(),
        trigrams(query)[k] == trigrams(text)[k2],
        max >= tally_s(add_id(m, trigrams(text), id), trigrams(query)).len(),
    ensures
        tallied(hits_s(add_id(m, trigrams(text), id), query, max), id),
{
    let tris = trigrams(text);
    let q = trigrams(query);
    let ma = add_id(m, tris, id);
    law_insert_lists(m, tris, id);
    assert(ids_under(ma, tris[k2]).contains(id));
    assert(ids_under(ma, q[k]).contains(id));
    law_tally_members(ma, q, id);
    let ta = tally_s(ma, q);
    lemma_sort_desc_len(ta);
    let j = choose|j: int| 0 <= j < ta.len() && #[trigger] ta[j].0 == id;
    lemma_sort_desc_keeps(ta);
    assert(sort_desc(ta).contains(ta[j]));
    let w = choose|w: int| 0 <= w < sort_desc(ta).len() && sort_desc(ta)[w] == ta[j];
    assert(sort_desc(ta).take(ta.len() as int) =~= sort_desc(ta));
    assert(hits_s(ma, query, max)[w].0 == id);
}

proof fn lemma_filter_push(s: Seq<Seq<char>>, a: Seq<char>, id: Seq<char>)
    ensures
        s.push(a).filter(is_not(id)) == if a != id {
            s.filter(is_not(id)).push(a)
        } else {
            s.filter(is_not(id))
        },
{
    reveal(Seq::filter);
    assert(s.push(a).drop_last() =~= s);
}

proof fn lemma_filter_twice(s: Seq<Seq<char>>, id: Seq<char>)
    ensures
        s.filter(is_not(id)).filter(is_not(id)) == s.filter(is_not(id)),
    decreases s.len(),
{
    reveal(Seq::filter);
    if s.len() > 0 {
        lemma_filter_twice(s.drop_last(), id);
        let f = s.drop_last().filter(is_not(id));
        if s.last() != id {
            lemma_filter_push(f, s.last(), id);
        }
    }
}

proof fn lemma_filter_without(s: Seq<Seq<char>>, id: Seq<char>)
    requires
        !s.contains(id),
    ensures
        s.filter(is_not(id)) == s,
    decreases s.len(),
{
    reveal(Seq::filter);
    if s.len() > 0 {
        assert(!s.drop_last().contains(id)) by {
            if s.drop_last().contains(id) {
                let k = choose|k: int| 0 <= k < s.drop_last().len() && s.drop_last()[k] == id;
                assert(s[k] == id);
            }
        }
        assert(s[s.len() - 1] != id);
        lemma_filter_without(s.drop_last(), id);
        assert(s.drop_last().push(s.last()) =~= s);
    }
}

proof fn lemma_add_id_filtered(m: Map<Seq<char>, Seq<Seq<char>>>, tris: Seq<Seq<char>>, id: Seq<char>, t: Seq<char>)
    ensures
        ids_under(add_id(m, tris, id), t).filter(is_not(id)) == ids_under(m, t).filter(is_not(id)),
        !tris.contains(t) ==> ids_under(add_id(m, tris, id), t) == ids_under(m, t),
    decreases tris.len(),
{
    if tris.len() > 0 {
        let p = tris.drop_last();
        lemma_add_id_filtered(m, p, id, t);
        if t == tris.last() {
            lemma_filter_push(ids_under(add_id(m, p, id), t), id, id);
            assert(tris[tris.len() - 1] == t);
        } else if !tris.contains(t) {
            assert(!p.contains(t)) by {
                if p.contains(t) {
                    let k = choose|k: int| 0 <= k < p.len() && p[k] == t;
                    assert(tris[k] == t);
                }
            }
        }
    }
}

proof fn lemma_drop_id_under(m: Map<Seq<char>, Seq<Seq<char>>>, tris: Seq<Seq<char>>, id: Seq<char>, t: Seq<char>)
    ensures
        ids_under(drop_id(m, tris, id), t) == if tris.contains(t) {
            ids_under(m, t).filter(is_not(id))
        } else {
            ids_under(m, t)
        },
    decreases tris.len(),
{
    reveal(Seq::filter);
    if tris.len() > 0 {
        let p = tris.drop_last();
        lemma_drop_id_under(m, p, id, t);
        let m1 = drop_id(m, p, id);
        assert(is_not(id) =~= (|x: Seq<char>| x != id));
        if p.contains(t) {
            let k = choose|k: int| 0 <= k < p.len() && p[k] == t;
            assert(tris[k] == t);
        }
        if t == tris.last() {
            assert(tris[tris.len() - 1] == t);
            if p.contains(t) {
                lemma_filter_twice(ids_under(m, t), id);
            }
        } else if tris.contains(t) {
            let k = choose|k: int| 0 <= k < tris.len() && tris[k] == t;
            assert(p[k] == t);
        }
    }
}

proof fn lemma_tally_same_lists(m1: Map<Seq<char>, Seq<Seq<char>>>, m2: Map<Seq<char>, Seq<Seq<char>>>, q: Seq<Seq<char>>)
    requires
        forall|t: Seq<char>| #[trigger] ids_under(m1, t) == ids_under(m2, t),
    ensures
        tally_s(m1, q) == tally_s(m2, q),
    decreases q.len(),
{
    if q.len() > 0 {
        lemma_tally_same_lists(m1, m2, q.drop_last());
        assert(ids_under(m1, q.last()) == ids_under(m2, q.last()));
    }
}

/// Listing a new id for a text and then dropping it again for the same text leaves every
/// search as it was.
pub proof fn law_insert_then_remove_restores(
    m: Map<Seq<char>, Seq<Seq<char>>>,
    text: Seq<char>,
    id: Seq<char>,
    query: Seq<char>,
    max: int,
)
    requires
        forall|t: Seq<char>| #[trigger] m.dom().contains(t) ==> !m[t].contains(id),
    ensures
        hits_s(drop_id(add_id(m, trigrams(text), id), trigrams(text), id), query, max) == hits_s(
            m,
            query,
            max,
        ),
{
    let tris = trigrams(text);
    let ma = add_id(m, tris, id);
    let md = drop_id(ma, tris, id);
    assert forall|t: Seq<char>| #[trigger] ids_under(md, t) == ids_under(m, t) by {
        lemma_drop_id_under(ma, tris, id, t);
        lemma_add_id_filtered(m, tris, id, t);
        if m.dom().contains(t) {
            lemma_filter_without(m[t], id);
        } else {
            lemma_filter_without(Seq::<Seq<char>>::empty(), id);
        }
    }
    lemma_tally_same_lists(md, m, trigrams(query));
}

/// The number of listings under the trigrams, once per occurrence.
pub open spec fn total_listings(m: Map<Seq<char>, Seq<Seq<char>>>, tris: Seq<Seq<char>>) -> nat
    decreases tris.len(),
{
    if tris.len() == 0 {
        0
    } else {
        total_listings(m, tris.drop_last()) + ids_under(m, tris.last()).len()
    }
}

/// After an id is inserted for a text, every trigram of the text lists it.
pub proof fn law_insert_lists(m: Map<Seq<char>, Seq<Seq<char>>>, tris: Seq<Seq<char>>, id: Seq<char>)
    ensures
        forall|k: int| 0 <= k < tris.len() ==> ids_under(add_id(m, tris, id), #[trigger] tris[k]).contains(id),
    decreases tris.len(),
{
    if tris.len() > 0 {
        let p = tris.drop_last();
        law_insert_lists(m, p, id);
        let m1 = add_id(m, p, id);
        let last = tris.last();
        let l = ids_under(m1, last).push(id);
        assert(l[l.len() - 1] == id);
        assert forall|k: int| 0 <= k < tris.len() implies ids_under(add_id(m, tris, id), #[trigger] tris[k]).contains(id) by {
            if tris[k] != last {
                assert(tris[k] == p[k]);
                let j = choose|j: int| 0 <= j < ids_under(m1, p[k]).len() && ids_under(m1, p[k])[j] == id;
                assert(ids_under(add_id(m, tris, id), tris[k])[j] == id);
            }
        }
    }
}

pub open spec fn is_not(id: Seq<char>) -> spec_fn(Seq<char>) -> bool {
    |x: Seq<char>| x != id
}

/// After an id is removed for a text, no trigram of the text lists it.
pub proof fn law_remove_unlists(m: Map<Seq<char>, Seq<Seq<char>>>, tris: Seq<Seq<char>>, id: Seq<char>)
    ensures
        forall|k: int| 0 <= k < tris.len() ==> !ids_under(drop_id(m, tris, id), #[trigger] tris[k]).contains(id),
    decreases tris.len(),
{
    broadcast use vstd::seq_lib::group_filter_ensures;

    if tris.len() > 0 {
        let p = tris.drop_last();
        law_remove_unlists(m, p, id);
        let m1 = drop_id(m, p, id);
        let last = tris.last();
        if m1.dom().contains(last) {
            let f = m1[last].filter(|x: Seq<char>| x != id);
            assert(is_not(id) =~= (|x: Seq<char>| x != id));
            assert(f == m1[last].filter(is_not(id)));
            assert forall|j: int| 0 <= j < f.len() implies f[j] != id by {
                m1[last].lemma_filter_pred(is_not(id), j);
            }
        }
        assert forall|k: int| 0 <= k < tris.len() implies !ids_under(drop_id(m, tris, id), #[trigger] tris[k]).contains(id) by {
            if tris[k] != last {
                assert(tris[k] == p[k]);
            }
        }
    }
}

} // verus!
