//! The spotlight service's search: trigram candidates matched back to their index entries.
//! The caller turns each hit count into a score (hits over the query's trigram count).

use vstd::prelude::*;
use crate::records::{IndexEntry, IndexEntryV};
use crate::symbol_index::entries_v;
use crate::text::str_eq;
use crate::trigram::{
    TrigramIndex, min_int, pairs_nat, sort_desc, tally_s, total_listings, trigrams,
};

verus! {

/// How a spotlight query searches.
#[derive(Debug, Clone, Copy, PartialEq, Eq, Structural)]
pub enum SearchMode {
    Unspecified,
    Exact,
    Fuzzy,
    Semantic,
    Hybrid,
}

/// The last entry with id `id` (a later entry with the same id shadows an earlier one).
pub open spec fn entry_with_id(es: Seq<IndexEntryV>, id: Seq<char>) -> Option<IndexEntryV>
    decreases es.len(),
{
    if es.len() == 0 {
        None
    } else if es.last().id == id {
        Some(es.last())
    } else {
        entry_with_id(es.drop_last(), id)
    }
}

/// The ranked candidates that have an entry, each with its entry and hit count, in order.
pub open spec fn found_hits(ranked: Seq<(Seq<char>, nat)>, es: Seq<IndexEntryV>) -> Seq<(IndexEntryV, nat)>
    decreases ranked.len(),
{
    if ranked.len() == 0 {
        Seq::empty()
    } else {
        let prev = found_hits(ranked.drop_last(), es);
        match entry_with_id(es, ranked.last().0) {
            Some(e) => prev.push((e, ranked.last().1)),
            None => prev,
        }
    }
}

/// The number of results asked for: at least one.
pub open spec fn wanted(max_results: u32) -> nat {
    if max_results == 0 {
        1
    } else {
        max_results as nat
    }
}

/// The search's hits: for the trigram modes, the best `2 × wanted` candidates (saturating)
/// matched to their entries, at most `wanted` of them; none for the other modes.
pub open spec fn spotlight_s(
    m: Map<Seq<char>, Seq<Seq<char>>>,
    es: Seq<IndexEntryV>,
    query: Seq<char>,
    max_results: u32,
    mode: SearchMode,
) -> Seq<(IndexEntryV, nat)> {
    match mode {
        SearchMode::Exact | SearchMode::Fuzzy | SearchMode::Hybrid => {
            let want = wanted(max_results);
            let fetch = if 2 * want > usize::MAX {
                usize::MAX as int
            } else {
                (2 * want) as int
            };
            let t = tally_s(m, trigrams(query));
            let ranked = sort_desc(t).take(min_int(fetch, t.len() as int));
            let found = found_hits(ranked, es);
            found.take(min_int(want as int, found.len() as int))
        },
        _ => Seq::empty(),
    }
}

pub open spec fn hits_v(v: Seq<(IndexEntry, usize)>) -> Seq<(IndexEntryV, nat)> {
    v.map_values(|p: (IndexEntry, usize)| (p.0@, p.1 as nat))
}

fn find_entry(entries: &Vec<IndexEntry>, id: &str) -> (r: Option<IndexEntry>)
    ensures
        match r {
            Some(e) => entry_with_id(entries_v(entries@), id@) == Some(e@),
            None => entry_with_id(entries_v(entries@), id@) is None,
        },
{
    let ghost es = entries_v(entries@);
    let mut k: usize = entries.len();
    assert(es.take(k as int) =~= es);
    while k > 0
        invariant
            k <= entries@.len(),
            es == entries_v(entries@),
            entry_with_id(es, id@) == entry_with_id(es.take(k as int), id@),
        decreases k,
    {
        let ghost pre = es.take(k as int);
        assert(pre.last() == entries@[k - 1]@);
        assert(pre.drop_last() =~= es.take(k - 1));
        if str_eq(entries[k - 1].id.as_str(), id) {
            return Some(entries[k - 1].duplicate());
        }
        k = k - 1;
    }
    None
}

/// Searches the index for `query` in the given mode and matches the candidates to entries.
/// Returns the hits with their hit counts, and the number of query trigrams.
pub fn spotlight_search(
    index: &TrigramIndex,
    entries: &Vec<IndexEntry>,
    query: &str,
    max_results: u32,
    mode: SearchMode,
) -> (r: (Vec<(IndexEntry, usize)>, usize))
    requires
        total_listings(index.lists(), trigrams(query@)) <= usize::MAX,
    ensures
        hits_v(r.0@) == spotlight_s(index.lists(), entries_v(entries@), query@, max_results, mode),
        r.1 == trigrams(query@).len(),
{
    match mode {
        SearchMode::Exact | SearchMode::Fuzzy | SearchMode::Hybrid => {},
        _ => {
            let (_, total) = index.search_hits(query, 0);
            assert(hits_v(Seq::<(IndexEntry, usize)>::empty()) =~= Seq::<(IndexEntryV, nat)>::empty());
            return (Vec::new(), total);
        },
    }
    let want: usize = if max_results == 0 {
        1
    } else {
        max_results as usize
    };
    let fetch: usize = if want > usize::MAX / 2 {
        usize::MAX
    } else {
        want * 2
    };
    let (ranked, total) = index.search_hits(query, fetch);
    let ghost rv = pairs_nat(ranked@);
    let ghost es = entries_v(entries@);
    let mut out: Vec<(IndexEntry, usize)> = Vec::new();
    let mut i: usize = 0;
    assert(rv.take(0) =~= Seq::<(Seq<char>, nat)>::empty());
    assert(hits_v(out@) =~= Seq::<(IndexEntryV, nat)>::empty());
    while i < ranked.len() && out.len() < want
        invariant
            i <= ranked@.len(),
            rv == pairs_nat(ranked@),
            es == entries_v(entries@),
            hits_v(out@) == found_hits(rv.take(i as int), es),
            out@.len() <= want,
        decreases ranked.len() - i,
    {
        assert(rv.take(i + 1).drop_last() =~= rv.take(i as int));
        assert(rv.take(i + 1).last() == (ranked@[i as int].0@, ranked@[i as int].1 as nat));
        match find_entry(entries, ranked[i].0.as_str()) {
            Some(e) => {
                let ghost before = hits_v(out@);
                out.push((e, ranked[i].1));
                assert(hits_v(out@) =~= before.push((e@, ranked@[i as int].1 as nat)));
            },
            None => {},
        }
        i = i + 1;
    }
    proof {
        lemma_found_prefix(rv, es, i as int, want as int);
    }
    (out, total)
}

proof fn lemma_found_hits_grow(ranked: Seq<(Seq<char>, nat)>, es: Seq<IndexEntryV>, i: int, j: int)
    requires
        0 <= i <= j <= ranked.len(),
    ensures
        found_hits(ranked.take(j), es).take(found_hits(ranked.take(i), es).len() as int) == found_hits(
            ranked.take(i),
            es,
        ),
        found_hits(ranked.take(i), es).len() <= found_hits(ranked.take(j), es).len(),
    decreases j - i,
{
    if i < j {
        lemma_found_hits_grow(ranked, es, i, j - 1);
        assert(ranked.take(j).drop_last() =~= ranked.take(j - 1));
        let a = found_hits(ranked.take(i), es);
        let b = found_hits(ranked.take(j - 1), es);
        let c = found_hits(ranked.take(j), es);
        assert(c.take(a.len() as int) =~= b.take(a.len() as int));
    } else {
        assert(found_hits(ranked.take(j), es).take(found_hits(ranked.take(i), es).len() as int)
            =~= found_hits(ranked.take(i), es));
    }
}

/// Stopping once `want` hits are found gives the first `want` hits of the whole ranking.
proof fn lemma_found_prefix(ranked: Seq<(Seq<char>, nat)>, es: Seq<IndexEntryV>, i: int, want: int)
    requires
        0 <= i <= ranked.len(),
        0 <= want,
        found_hits(ranked.take(i), es).len() <= want,
        i < ranked.len() ==> found_hits(ranked.take(i), es).len() == want,
    ensures
        found_hits(ranked.take(i), es) == found_hits(ranked, es).take(
            min_int(want, found_hits(ranked, es).len() as int),
        ),
{
    assert(ranked.take(ranked.len() as int) =~= ranked);
    lemma_found_hits_grow(ranked, es, i, ranked.len() as int);
    if i == ranked.len() {
        assert(found_hits(ranked, es).take(found_hits(ranked, es).len() as int) =~= found_hits(ranked, es));
    }
}

} // verus!
