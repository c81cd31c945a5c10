//! Context assembly: candidate index entries are scored for relevance to a focus point,
//! ranked, and packed greedily into a token budget. Scores are in thousandths (1000 is a
//! perfect match).

use vstd::prelude::*;
use crate::records::{FileRef, IndexEntry, IndexEntryV, Position};
use crate::stdtext::{lowercase, to_lower};
use crate::strs::{contains_s, contains_str};
use crate::text::{chars_of, dec_int, decimal_i64, push_decimal, push_str, str_eq, string_from};

verus! {

/// Where the user is looking: a file, a position in it, and what they are asking about.
#[derive(Debug, Clone)]
pub struct FocusPoint {
    pub file_ref: Option<FileRef>,
    pub position: Option<Position>,
    pub query: String,
}

/// The token budget of a context window and the parts of it held back.
#[derive(Debug, Clone, Copy)]
pub struct ContextBudget {
    pub max_tokens: i32,
    pub system_reserve: i32,
    pub history_reserve: i32,
    pub response_reserve: i32,
}

#[derive(Debug, Clone, Copy, PartialEq, Eq, Structural)]
pub enum IncludeReason {
    Unspecified,
    FocusPoint,
    SameFile,
    SymbolRef,
    SemanticSimilar,
}

/// An entry placed in a context window.
#[derive(Debug, Clone)]
pub struct ContextSlice {
    pub entry: Option<IndexEntry>,
    pub relevance_milli: u32,
    pub include_reason: IncludeReason,
    pub rank: i32,
}

/// The assembled context.
#[derive(Debug, Clone)]
pub struct ContextWindow {
    pub request_id: String,
    pub workspace_id: String,
    pub focus_point: Option<FocusPoint>,
    pub slices: Vec<ContextSlice>,
    pub total_tokens: i32,
    pub truncated: bool,
    pub truncation_summary: String,
}

/// The relevance of an entry to a focus point, with the reason: 1000 when the focus
/// position lies in the entry's span, 900 for the same file, 850 when the symbol's name is
/// the query (ignoring case), 700 when one contains the other, else half the entry's
/// importance, at most 1000.
pub open spec fn fallback_score(importance_milli: u32) -> u32 {
    if importance_milli / 2 > 1000 {
        1000
    } else {
        importance_milli / 2
    }
}

pub open spec fn rank_s(e: IndexEntry, f: FocusPoint) -> (u32, IncludeReason) {
    let same_file = e.file_ref is Some && f.file_ref is Some && (e.file_ref->0).path@ == (
    f.file_ref->0).path@;
    if same_file {
        let inside = match (e.span, f.position) {
            (Some(span), Some(pos)) => match (span.start, span.end) {
                (Some(start), Some(end)) => pos.line >= start.line && pos.line <= end.line,
                _ => false,
            },
            _ => false,
        };
        if inside {
            (1000, IncludeReason::FocusPoint)
        } else {
            (900, IncludeReason::SameFile)
        }
    } else if f.query@.len() > 0 && e.symbol_record is Some {
        let q = lowercase(f.query@);
        let name = lowercase((e.symbol_record->0).name@);
        if name == q {
            (850, IncludeReason::SymbolRef)
        } else if contains_s(name, q) || contains_s(q, name) {
            (700, IncludeReason::SemanticSimilar)
        } else {
            (fallback_score(e.importance_milli), IncludeReason::SemanticSimilar)
        }
    } else {
        (fallback_score(e.importance_milli), IncludeReason::SemanticSimilar)
    }
}

/// Whether the entry lies in the focus file (both have a file, with the same path).
pub open spec fn in_focus_file(e: IndexEntry, f: FocusPoint) -> bool {
    &&& e.file_ref is Some
    &&& f.file_ref is Some
    &&& (e.file_ref->0).path@ == (f.file_ref->0).path@
}

/// Whether the focus position's line lies within the entry's span, both ends included.
pub open spec fn focus_in_span(e: IndexEntry, f: FocusPoint) -> bool {
    &&& e.span is Some
    &&& f.position is Some
    &&& (e.span->0).start is Some
    &&& (e.span->0).end is Some
    &&& ((e.span->0).start->0).line <= (f.position->0).line
    &&& (f.position->0).line <= ((e.span->0).end->0).line
}

/// How an entry is scored against a focus point, case by case:
/// - in the focus file, around the focus position: 1000, for the focus point;
/// - elsewhere in the focus file: 900, for the same file;
/// - outside it, with a symbol and a query: 850 as a symbol reference when the symbol's
///   name is the query (ignoring case); 700 as semantically similar when one contains the
///   other (ignoring case); otherwise half the importance;
/// - outside it, without a symbol or without a query: half the importance;
/// where half the importance is capped at 1000, and every score is at most 1000.
pub proof fn law_rank_cases(e: IndexEntry, f: FocusPoint)
    ensures
        rank_s(e, f).0 <= 1000,
        in_focus_file(e, f) && focus_in_span(e, f) ==> rank_s(e, f) == (1000u32, IncludeReason::FocusPoint),
        in_focus_file(e, f) && !focus_in_span(e, f) ==> rank_s(e, f) == (900u32, IncludeReason::SameFile),
        ({
            let q = lowercase(f.query@);
            let name = lowercase((e.symbol_record->0).name@);
            !in_focus_file(e, f) && f.query@.len() > 0 && e.symbol_record is Some ==> {
                &&& name == q ==> rank_s(e, f) == (850u32, IncludeReason::SymbolRef)
                &&& name != q && (contains_s(q, name) || contains_s(name, q)) ==> rank_s(e, f) == (
                    700u32,
                    IncludeReason::SemanticSimilar,
                )
                &&& name != q && !contains_s(q, name) && !contains_s(name, q) ==> rank_s(e, f) == (
                    (if e.importance_milli / 2 <= 1000 {
                        e.importance_milli / 2
                    } else {
                        1000
                    }) as u32,
                    IncludeReason::SemanticSimilar,
                )
            }
        }),
        !in_focus_file(e, f) && (f.query@.len() == 0 || e.symbol_record is None) ==> rank_s(e, f) == (
            (if e.importance_milli / 2 <= 1000 {
                e.importance_milli / 2
            } else {
                1000
            }) as u32,
            IncludeReason::SemanticSimilar,
        ),
{
}

/// Scores an entry for relevance to a focus point, in thousandths: between 0 and 1000.
pub fn rank(entry: &IndexEntry, focus: &FocusPoint) -> (r: (u32, IncludeReason))
    ensures
        r == rank_s(*entry, *focus),
        r.0 <= 1000,
{
    match (&entry.file_ref, &focus.file_ref) {
        (Some(ef), Some(ff)) => {
            if str_eq(ef.path.as_str(), ff.path.as_str()) {
                match (&entry.span, &focus.position) {
                    (Some(span), Some(pos)) => match (&span.start, &span.end) {
                        (Some(start), Some(end)) => {
                            if pos.line >= start.line && pos.line <= end.line {
                                return (1000, IncludeReason::FocusPoint);
                            }
                        },
                        _ => {},
                    },
                    _ => {},
                }
                return (900, IncludeReason::SameFile);
            }
        },
        _ => {},
    }
    if chars_of(focus.query.as_str()).len() > 0 {
        match &entry.symbol_record {
            Some(sym) => {
                let q = to_lower(focus.query.as_str());
                let name = to_lower(sym.name.as_str());
                if str_eq(name.as_str(), q.as_str()) {
                    return (850, IncludeReason::SymbolRef);
                }
                if contains_str(name.as_str(), q.as_str()) || contains_str(q.as_str(), name.as_str()) {
                    return (700, IncludeReason::SemanticSimilar);
                }
            },
            None => {},
        }
    }
    let half = entry.importance_milli / 2;
    (if half > 1000 { 1000 } else { half }, IncludeReason::SemanticSimilar)
}

/// A scored candidate.
pub type Scored = (IndexEntry, u32, IncludeReason);

/// `x` placed into `s` before the first candidate with a lower score.
pub open spec fn insert_by_score(s: Seq<Scored>, x: Scored) -> Seq<Scored>
    decreases s.len(),
{
    if s.len() == 0 {
        seq![x]
    } else if s[0].1 < x.1 {
        seq![x] + s
    } else {
        seq![s[0]] + insert_by_score(s.drop_first(), x)
    }
}

/// Stable sort by score, highest first: equal scores keep their order.
pub open spec fn sort_by_score(s: Seq<Scored>) -> Seq<Scored>
    decreases s.len(),
{
    if s.len() == 0 {
        Seq::empty()
    } else {
        insert_by_score(sort_by_score(s.drop_last()), s.last())
    }
}

/// The candidates with their scores, in the order given.
pub open spec fn scored_s(cands: Seq<IndexEntry>, f: FocusPoint) -> Seq<Scored> {
    cands.map_values(|e: IndexEntry| (e, rank_s(e, f).0, rank_s(e, f).1))
}

/// The outcome of packing ranked candidates: the indices (in rank order) of those taken,
/// the tokens used, and how many were left out.
pub struct Packing {
    pub taken: Seq<int>,
    pub used: int,
    pub skipped: nat,
}

/// Greedy packing of the first `n` ranked candidates: each is taken when it still fits in
/// the budget, and left out otherwise.
pub open spec fn pack(ranked: Seq<Scored>, n: int, available: int) -> Packing
    decreases n,
{
    if n <= 0 {
        Packing { taken: Seq::empty(), used: 0, skipped: 0 }
    } else {
        let p = pack(ranked, n - 1, available);
        let cost = ranked[n - 1].0.tokens as int;
        if p.used + cost > available {
            Packing { taken: p.taken, used: p.used, skipped: p.skipped + 1 }
        } else {
            Packing { taken: p.taken.push(n - 1), used: p.used + cost, skipped: p.skipped }
        }
    }
}

/// The tokens left for context once the reserves are held back.
pub open spec fn available_s(b: ContextBudget) -> int {
    b.max_tokens - b.system_reserve - b.history_reserve - b.response_reserve
}

pub open spec fn budget_ok(b: ContextBudget) -> bool {
    i32::MIN <= available_s(b) <= i32::MAX
}

/// The slices of a window, as (entry, score, reason, rank) values.
pub open spec fn slices_v(v: Seq<ContextSlice>) -> Seq<(Option<IndexEntryV>, u32, IncludeReason, i32)> {
    v.map_values(
        |s: ContextSlice|
            (
                match s.entry {
                    Some(e) => Some(e@),
                    None => None,
                },
                s.relevance_milli,
                s.include_reason,
                s.rank,
            ),
    )
}

/// The slice for the candidate at rank position `i`.
pub open spec fn slice_for(ranked: Seq<Scored>, i: int) -> (Option<IndexEntryV>, u32, IncludeReason, i32) {
    (Some(ranked[i].0@), ranked[i].1, ranked[i].2, i as i32)
}

/// The summary of a truncated window.
pub open spec fn truncation_text(skipped: nat, available: int) -> Seq<char> {
    "omitted "@ + crate::text::dec_digits(skipped) + " low-relevance entries (budget: "@ + dec_int(
        available,
    ) + " tokens)"@
}

proof fn lemma_insert_by_score_at(s: Seq<Scored>, x: Scored, pos: int)
    requires
        0 <= pos <= s.len(),
        forall|j: int| 0 <= j < pos ==> !(s[j].1 < x.1),
        pos < s.len() ==> s[pos].1 < x.1,
    ensures
        insert_by_score(s, x) == s.take(pos) + seq![x] + s.skip(pos),
    decreases s.len(),
{
    if s.len() == 0 {
        assert(s.take(pos) + seq![x] + s.skip(pos) =~= seq![x]);
    } else if pos == 0 {
        assert(s.take(0) + seq![x] + s.skip(0) =~= seq![x] + s);
    } else {
        lemma_insert_by_score_at(s.drop_first(), x, pos - 1);
        assert(seq![s[0]] + (s.drop_first().take(pos - 1) + seq![x] + s.drop_first().skip(pos - 1))
            =~= s.take(pos) + seq![x] + s.skip(pos));
    }
}

proof fn lemma_sort_by_score_len(s: Seq<Scored>)
    ensures
        sort_by_score(s).len() == s.len(),
    decreases s.len(),
{
    if s.len() > 0 {
        lemma_sort_by_score_len(s.drop_last());
        lemma_insert_by_score_len(sort_by_score(s.drop_last()), s.last());
    }
}

proof fn lemma_insert_by_score_len(s: Seq<Scored>, x: Scored)
    ensures
        insert_by_score(s, x).len() == s.len() + 1,
    decreases s.len(),
{
    if s.len() > 0 && !(s[0].1 < x.1) {
        lemma_insert_by_score_len(s.drop_first(), x);
    }
}


proof fn lemma_insert_members(s: Seq<Scored>, x: Scored)
    ensures
        forall|i: int| 0 <= i < insert_by_score(s, x).len() ==> (#[trigger] insert_by_score(s, x)[i]
            == x || s.contains(insert_by_score(s, x)[i])),
    decreases s.len(),
{
    if s.len() > 0 && !(s[0].1 < x.1) {
        lemma_insert_members(s.drop_first(), x);
        assert forall|i: int| 0 <= i < insert_by_score(s, x).len() implies (#[trigger] insert_by_score(
            s,
            x,
        )[i] == x || s.contains(insert_by_score(s, x)[i])) by {
            if i > 0 {
                let y = insert_by_score(s, x)[i];
                assert(y == insert_by_score(s.drop_first(), x)[i - 1]);
                if y != x {
                    let k = choose|k: int| 0 <= k < s.drop_first().len() && s.drop_first()[k] == y;
                    assert(s[k + 1] == y);
                }
            } else {
                assert(s[0] == insert_by_score(s, x)[0]);
            }
        }
    } else if s.len() > 0 {
        assert forall|i: int| 0 <= i < insert_by_score(s, x).len() implies (#[trigger] insert_by_score(
            s,
            x,
        )[i] == x || s.contains(insert_by_score(s, x)[i])) by {
            if i > 0 {
                assert(insert_by_score(s, x)[i] == s[i - 1]);
            }
        }
    }
}

/// Builds a context window: candidates are ranked by relevance (ties keep their order) and
/// taken greedily while they fit in the budget left after the reserves.
pub fn assemble(
    workspace_id: &str,
    focus: FocusPoint,
    budget: &ContextBudget,
    candidates: Vec<IndexEntry>,
    request_id: String,
) -> (w: ContextWindow)
    requires
        budget_ok(*budget),
    ensures
        ({
            let ranked = sort_by_score(scored_s(candidates@, focus));
            let p = pack(ranked, ranked.len() as int, available_s(*budget));
            &&& slices_v(w.slices@) == p.taken.map_values(|i: int| slice_for(ranked, i))
            &&& w.total_tokens == p.used as i32
            &&& w.truncated == (p.skipped > 0)
            &&& w.truncation_summary@ == (if p.skipped > 0 {
                truncation_text(p.skipped, available_s(*budget))
            } else {
                Seq::empty()
            })
            &&& w.request_id == request_id
            &&& w.workspace_id@ == workspace_id@
            &&& w.focus_point == Some(focus)
        }),
{
    let avail64: i64 = budget.max_tokens as i64 - budget.system_reserve as i64
        - budget.history_reserve as i64 - budget.response_reserve as i64;
    let available: i32 = avail64 as i32;
    assert(available as int == available_s(*budget));
    let ghost sc = scored_s(candidates@, focus);
    let ghost cands = candidates@;
    let mut rest = candidates;
    let mut rev: Vec<IndexEntry> = Vec::new();
    while rest.len() > 0
        invariant
            rest@ + rev@.reverse() == cands,
        decreases rest.len(),
    {
        let ghost r0 = rest@;
        let ghost v0 = rev@;
        let e = rest.pop().unwrap();
        rev.push(e);
        assert(rev@.reverse() =~= seq![e] + v0.reverse());
        assert(r0 =~= rest@.push(e));
        assert(rest@ + rev@.reverse() =~= r0 + v0.reverse());
    }
    assert(rest@ =~= Seq::<IndexEntry>::empty());
    assert(rev@.reverse() =~= cands);
    let n = rev.len();
    let mut ranked: Vec<Scored> = Vec::new();
    assert(sc.take(0) =~= Seq::<Scored>::empty());
    while rev.len() > 0
        invariant
            n == cands.len(),
            rev@.len() <= n,
            rev@.reverse() == cands.skip(n - rev@.len()),
            sc == scored_s(cands, focus),
            ranked@ == sort_by_score(sc.take(n - rev@.len())),
        decreases rev.len(),
    {
        let ghost v0 = rev@;
        let ghost k = n - v0.len();
        let e = rev.pop().unwrap();
        assert(v0.reverse()[0] == e);
        assert(cands[k] == e);
        assert(rev@.reverse() =~= v0.reverse().drop_first());
        assert(rev@.reverse() =~= cands.skip(k + 1));
        let (score, reason) = rank(&e, &focus);
        let x: Scored = (e, score, reason);
        assert(sc[k] == x);
        assert(sc.take(k + 1).drop_last() =~= sc.take(k));
        let ghost rv = ranked@;
        let mut pos: usize = 0;
        while pos < ranked.len() && !(ranked[pos].1 < score)
            invariant
                pos <= ranked@.len(),
                rv == ranked@,
                forall|j: int| 0 <= j < pos ==> !(rv[j].1 < score),
            decreases ranked.len() - pos,
        {
            pos = pos + 1;
        }
        proof {
            lemma_insert_by_score_at(rv, x, pos as int);
        }
        ranked.insert(pos, x);
        assert(ranked@ =~= rv.take(pos as int) + seq![x] + rv.skip(pos as int));
    }
    assert(sc.take(n as int) =~= sc);
    let ghost rk = ranked@;
    proof {
        lemma_sort_by_score_len(sc);
    }
    let mut slices: Vec<ContextSlice> = Vec::new();
    let mut used: i128 = 0;
    let mut skipped: usize = 0;
    let mut i: usize = 0;
    let ghost mut taken: Seq<int> = Seq::empty();
    while i < ranked.len()
        invariant
            i <= rk.len(),
            rk == ranked@,
            rk.len() == n,
            available as int == available_s(*budget),
            pack(rk, i as int, available as int) == (Packing { taken, used: used as int, skipped: skipped as nat }),
            used >= -(0x8000_0000 * i),
            used <= available || taken.len() == 0,
            used as int <= i32::MAX,
            skipped <= i,
            slices_v(slices@) == taken.map_values(|j: int| slice_for(rk, j)),
        decreases ranked.len() - i,
    {
        let cost = ranked[i].0.tokens as i128;
        if used + cost > available as i128 {
            skipped = skipped + 1;
        } else {
            used = used + cost;
            let entry = ranked[i].0.duplicate();
            let slice = ContextSlice {
                entry: Some(entry),
                relevance_milli: ranked[i].1,
                include_reason: ranked[i].2,
                rank: i as i32,
            };
            let ghost before = slices_v(slices@);
            slices.push(slice);
            proof {
                assert(slices_v(slices@) =~= before.push(slice_for(rk, i as int)));
                assert(taken.push(i as int).map_values(|j: int| slice_for(rk, j)) =~= taken.map_values(
                    |j: int| slice_for(rk, j),
                ).push(slice_for(rk, i as int)));
                taken = taken.push(i as int);
            }
        }
        i = i + 1;
    }
    let truncated = skipped > 0;
    let summary = if truncated {
        let mut t = string_from("omitted ");
        push_decimal(&mut t, skipped as u64);
        push_str(&mut t, " low-relevance entries (budget: ");
        let a = decimal_i64(available as i64);
        push_str(&mut t, a.as_str());
        push_str(&mut t, " tokens)");
        t
    } else {
        String::new()
    };
    ContextWindow {
        request_id,
        workspace_id: string_from(workspace_id),
        focus_point: Some(focus),
        slices,
        total_tokens: used as i32,
        truncated,
        truncation_summary: summary,
    }
}


proof fn lemma_insert_by_score_sorted(s: Seq<Scored>, x: Scored)
    requires
        forall|i: int, j: int| 0 <= i < j < s.len() ==> s[i].1 >= s[j].1,
    ensures
        forall|i: int, j: int|
            0 <= i < j < insert_by_score(s, x).len() ==> insert_by_score(s, x)[i].1 >= insert_by_score(
                s,
                x,
            )[j].1,
        forall|i: int| 0 <= i < insert_by_score(s, x).len() ==> (#[trigger] insert_by_score(s, x)[i]
            == x || s.contains(insert_by_score(s, x)[i])),
    decreases s.len(),
{
    lemma_insert_members(s, x);
    if s.len() > 0 && !(s[0].1 < x.1) {
        lemma_insert_by_score_sorted(s.drop_first(), x);
        let r = insert_by_score(s, x);
        assert forall|i: int, j: int| 0 <= i < j < r.len() implies r[i].1 >= r[j].1 by {
            if i == 0 {
                let y = r[j];
                assert(y == insert_by_score(s.drop_first(), x)[j - 1]);
                if y != x {
                    assert(s.drop_first().contains(y));
                    let k = choose|k: int| 0 <= k < s.drop_first().len() && s.drop_first()[k] == y;
                    assert(s[k + 1] == y);
                }
            } else {
                assert(r[i] == insert_by_score(s.drop_first(), x)[i - 1]);
                assert(r[j] == insert_by_score(s.drop_first(), x)[j - 1]);
            }
        }
    }
}

proof fn lemma_insert_by_score_multiset(s: Seq<Scored>, x: Scored)
    ensures
        insert_by_score(s, x).to_multiset() == s.to_multiset().insert(x),
    decreases s.len(),
{
    broadcast use vstd::seq_lib::group_to_multiset_ensures;
    broadcast use vstd::multiset::group_multiset_axioms;

    if s.len() == 0 {
        assert(seq![x] =~= s.push(x));
    } else if s[0].1 < x.1 {
        assert(seq![x] + s =~= s.insert(0, x));
    } else {
        let t = s.drop_first();
        lemma_insert_by_score_multiset(t, x);
        let y = insert_by_score(t, x);
        assert(seq![s[0]] + y =~= y.insert(0, s[0]));
        assert(s =~= t.insert(0, s[0]));
        assert(y.insert(0, s[0]).to_multiset() =~= s.to_multiset().insert(x));
    }
}

/// Ranking only reorders the candidates: the ranked sequence holds each scored candidate
/// exactly as often as the input does.
pub proof fn law_ranking_permutes(s: Seq<Scored>)
    ensures
        sort_by_score(s).to_multiset() == s.to_multiset(),
    decreases s.len(),
{
    broadcast use vstd::seq_lib::group_to_multiset_ensures;

    if s.len() == 0 {
        assert(sort_by_score(s) =~= s);
    } else {
        let p = s.drop_last();
        law_ranking_permutes(p);
        lemma_insert_by_score_multiset(sort_by_score(p), s.last());
        assert(s =~= p.push(s.last()));
    }
}

proof fn lemma_pack_taken_increasing(ranked: Seq<Scored>, n: int, available: int)
    requires
        0 <= n <= ranked.len(),
    ensures
        forall|a: int, b: int|
            0 <= a < b < pack(ranked, n, available).taken.len() ==> pack(ranked, n, available).taken[a]
                < pack(ranked, n, available).taken[b],
        forall|a: int|
            0 <= a < pack(ranked, n, available).taken.len() ==> 0 <= #[trigger] pack(
                ranked,
                n,
                available,
            ).taken[a] < n,
    decreases n,
{
    if n > 0 {
        lemma_pack_taken_increasing(ranked, n - 1, available);
        let p = pack(ranked, n - 1, available);
        let q = pack(ranked, n, available);
        if p.used + ranked[n - 1].0.tokens as int > available {
            assert(q.taken == p.taken);
        } else {
            assert(q.taken == p.taken.push(n - 1));
            assert forall|a: int| 0 <= a < q.taken.len() implies 0 <= #[trigger] q.taken[a] < n by {
                if a < p.taken.len() {
                    assert(q.taken[a] == p.taken[a]);
                }
            }
            assert forall|a: int, b: int| 0 <= a < b < q.taken.len() implies q.taken[a] < q.taken[b] by {
                assert(q.taken[a] == p.taken[a]);
                if b < p.taken.len() {
                    assert(q.taken[b] == p.taken[b]);
                }
            }
        }
    }
}

/// The picks at strictly increasing positions of `s` are a sub-multiset of `s`.
proof fn lemma_picks_sub_multiset(s: Seq<Scored>, idx: Seq<int>)
    requires
        forall|a: int, b: int| 0 <= a < b < idx.len() ==> idx[a] < idx[b],
        forall|a: int| 0 <= a < idx.len() ==> 0 <= #[trigger] idx[a] < s.len(),
    ensures
        idx.map_values(|i: int| s[i]).to_multiset().subset_of(s.to_multiset()),
    decreases s.len(),
{
    broadcast use vstd::seq_lib::group_to_multiset_ensures;
    broadcast use vstd::multiset::group_multiset_axioms;

    if s.len() == 0 {
        if idx.len() > 0 {
            assert(0 <= idx[0] < s.len());
        }
        assert(idx.map_values(|i: int| s[i]) =~= Seq::<Scored>::empty());
    } else {
        let p = s.drop_last();
        assert(s =~= p.push(s.last()));
        if idx.len() > 0 && idx.last() == s.len() - 1 {
            let q = idx.drop_last();
            assert forall|a: int| 0 <= a < q.len() implies 0 <= #[trigger] q[a] < p.len() by {
                assert(idx[a] < idx[idx.len() - 1]);
            }
            lemma_picks_sub_multiset(p, q);
            assert(idx.map_values(|i: int| s[i]) =~= q.map_values(|i: int| p[i]).push(s.last()));
            let a = q.map_values(|i: int| p[i]).to_multiset();
            let b = p.to_multiset();
            assert forall|v: Scored| #[trigger] a.insert(s.last()).count(v) <= b.insert(s.last()).count(v) by {}
        } else {
            assert forall|a: int| 0 <= a < idx.len() implies 0 <= #[trigger] idx[a] < p.len() by {
                if idx[a] == s.len() - 1 {
                    assert(idx[a] < idx[idx.len() - 1] || a == idx.len() - 1);
                }
            }
            lemma_picks_sub_multiset(p, idx);
            assert(idx.map_values(|i: int| s[i]) =~= idx.map_values(|i: int| p[i]));
            let a = idx.map_values(|i: int| p[i]).to_multiset();
            let b = p.to_multiset();
            assert forall|v: Scored| #[trigger] a.count(v) <= b.insert(s.last()).count(v) by {}
        }
    }
}

/// The window's slices are in rank order: scores never increase along them, their ranks
/// increase (while the candidate count fits the rank's type), and the slices, with their
/// scores, are drawn from the scored candidates, none taken more often than it occurs.
pub proof fn law_window_in_rank_order(cands: Seq<IndexEntry>, focus: FocusPoint, available: int)
    ensures
        ({
            let ranked = sort_by_score(scored_s(cands, focus));
            let p = pack(ranked, ranked.len() as int, available);
            let sl = p.taken.map_values(|i: int| slice_for(ranked, i));
            &&& forall|a: int, b: int| 0 <= a < b < sl.len() ==> sl[a].1 >= sl[b].1
            &&& cands.len() <= i32::MAX ==> forall|a: int, b: int|
                0 <= a < b < sl.len() ==> sl[a].3 < sl[b].3
            &&& p.taken.map_values(|i: int| ranked[i]).to_multiset().subset_of(
                scored_s(cands, focus).to_multiset(),
            )
        }),
{
    let sc = scored_s(cands, focus);
    let ranked = sort_by_score(sc);
    lemma_sort_by_score_len(sc);
    let n = ranked.len() as int;
    let p = pack(ranked, n, available);
    let sl = p.taken.map_values(|i: int| slice_for(ranked, i));
    lemma_pack_taken_increasing(ranked, n, available);
    law_ranking_descends(sc);
    law_ranking_permutes(sc);
    assert forall|a: int, b: int| 0 <= a < b < sl.len() implies sl[a].1 >= sl[b].1 by {
        assert(0 <= p.taken[a] < p.taken[b] < n);
    }
    if cands.len() <= i32::MAX {
        assert forall|a: int, b: int| 0 <= a < b < sl.len() implies sl[a].3 < sl[b].3 by {
            assert(0 <= p.taken[a] < p.taken[b] < n);
        }
    }
    lemma_picks_sub_multiset(ranked, p.taken);
}

/// The ranking is ordered by score, highest first.
pub proof fn law_ranking_descends(s: Seq<Scored>)
    ensures
        forall|i: int, j: int|
            0 <= i < j < sort_by_score(s).len() ==> sort_by_score(s)[i].1 >= sort_by_score(s)[j].1,
    decreases s.len(),
{
    if s.len() > 0 {
        law_ranking_descends(s.drop_last());
        lemma_insert_by_score_sorted(sort_by_score(s.drop_last()), s.last());
    }
}

/// Greedy packing accounts for every candidate, taken or left out; it never goes over a
/// budget it has started to fill; the taken candidates are in rank order; and a candidate is
/// left out only when it did not fit.
pub proof fn law_pack_within_budget(ranked: Seq<Scored>, n: int, available: int)
    requires
        0 <= n <= ranked.len(),
        forall|i: int| 0 <= i < ranked.len() ==> (#[trigger] ranked[i]).0.tokens >= 0,
    ensures
        pack(ranked, n, available).taken.len() + pack(ranked, n, available).skipped == n,
        pack(ranked, n, available).taken.len() > 0 ==> pack(ranked, n, available).used <= available,
        pack(ranked, n, available).used >= 0,
        forall|a: int, b: int|
            0 <= a < b < pack(ranked, n, available).taken.len() ==> pack(ranked, n, available).taken[a]
                < pack(ranked, n, available).taken[b],
        forall|a: int|
            0 <= a < pack(ranked, n, available).taken.len() ==> 0 <= #[trigger] pack(
                ranked,
                n,
                available,
            ).taken[a] < n,
        forall|i: int|
            0 <= i < n ==> (pack(ranked, n, available).taken.contains(i) <==> #[trigger] pack(
                ranked,
                i,
                available,
            ).used + ranked[i].0.tokens <= available),
    decreases n,
{
    if n > 0 {
        law_pack_within_budget(ranked, n - 1, available);
        let p = pack(ranked, n - 1, available);
        let q = pack(ranked, n, available);
        assert forall|i: int| 0 <= i < n implies (q.taken.contains(i) <==> #[trigger] pack(
            ranked,
            i,
            available,
        ).used + ranked[i].0.tokens <= available) by {
            if i < n - 1 {
                if q.taken.contains(i) {
                    let w = choose|w: int| 0 <= w < q.taken.len() && q.taken[w] == i;
                    if w < p.taken.len() {
                        assert(p.taken[w] == i);
                    }
                } else if p.taken.contains(i) {
                    let w = choose|w: int| 0 <= w < p.taken.len() && p.taken[w] == i;
                    assert(q.taken[w] == i);
                }
            } else {
                if p.taken.contains(i) {
                    let w = choose|w: int| 0 <= w < p.taken.len() && p.taken[w] == i;
                }
                if q.taken.contains(i) && p.used + ranked[n - 1].0.tokens > available {
                    assert(q.taken == p.taken);
                }
                if p.used + ranked[n - 1].0.tokens <= available {
                    assert(q.taken[q.taken.len() - 1] == i);
                }
            }
        }
    }
}

} // verus!
