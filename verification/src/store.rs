//! The in-memory index store: entries by id, and each file's entry ids.

use vstd::prelude::*;
use crate::parser::strings_v;
use crate::records::{IndexEntry, IndexEntryV};
use crate::strmap::StrMap;
use crate::symbol_index::entries_v;
use crate::text::string_from;

verus! {

pub type EntryMap = Map<Seq<char>, IndexEntryV>;

/// The ids of the entries, in order.
pub open spec fn ids_of(es: Seq<IndexEntryV>) -> Seq<Seq<char>> {
    es.map_values(|e: IndexEntryV| e.id)
}

/// The map with each of `ids` removed.
pub open spec fn remove_all(m: EntryMap, ids: Seq<Seq<char>>) -> EntryMap
    decreases ids.len(),
{
    if ids.len() == 0 {
        m
    } else {
        remove_all(m, ids.drop_last()).remove(ids.last())
    }
}

/// The map with each entry stored under its id, in order (a later entry replaces an
/// earlier one with the same id).
pub open spec fn put_all(m: EntryMap, es: Seq<IndexEntryV>) -> EntryMap
    decreases es.len(),
{
    if es.len() == 0 {
        m
    } else {
        put_all(m, es.drop_last()).insert(es.last().id, es.last())
    }
}

/// The entries stored under `ids`, in order, skipping ids with no entry.
pub open spec fn lookup_all(m: EntryMap, ids: Seq<Seq<char>>) -> Seq<IndexEntryV>
    decreases ids.len(),
{
    if ids.len() == 0 {
        Seq::empty()
    } else {
        let prev = lookup_all(m, ids.drop_last());
        if m.dom().contains(ids.last()) {
            prev.push(m[ids.last()])
        } else {
            prev
        }
    }
}

/// In-memory index store.
pub struct IndexStore {
    by_id: StrMap<IndexEntry>,
    by_file: StrMap<Vec<String>>,
}

impl IndexStore {
    /// Entry id to entry.
    pub closed spec fn entries(&self) -> EntryMap {
        self.by_id.map().map_values(|e: IndexEntry| e@)
    }

    /// File path to the ids of its entries.
    pub closed spec fn files(&self) -> Map<Seq<char>, Seq<Seq<char>>> {
        self.by_file.map().map_values(|v: Vec<String>| strings_v(v@))
    }

    /// The entries, in id order.
    pub closed spec fn entry_seq(&self) -> Seq<IndexEntryV> {
        entries_v(self.by_id.val_seq())
    }

    pub fn new() -> (s: Self)
        ensures
            s.entries() == EntryMap::empty(),
            s.files() == Map::<Seq<char>, Seq<Seq<char>>>::empty(),
            s.entry_seq() == Seq::<IndexEntryV>::empty(),
    {
        let s = IndexStore { by_id: StrMap::new(), by_file: StrMap::new() };
        assert(s.entry_seq() =~= Seq::<IndexEntryV>::empty());
        assert(s.entries() =~= EntryMap::empty());
        assert(s.files() =~= Map::<Seq<char>, Seq<Seq<char>>>::empty());
        s
    }

    /// Replaces a file's entries; returns how many entries the file had before.
    pub fn replace_file_entries(&mut self, file_path: &str, entries: Vec<IndexEntry>) -> (n: usize)
        ensures
            n == (if old(self).files().dom().contains(file_path@) {
                old(self).files()[file_path@].len()
            } else {
                0
            }),
            final(self).files() == old(self).files().insert(file_path@, ids_of(entries_v(entries@))),
            final(self).entries() == put_all(
                remove_all(
                    old(self).entries(),
                    if old(self).files().dom().contains(file_path@) {
                        old(self).files()[file_path@]
                    } else {
                        Seq::empty()
                    },
                ),
                entries_v(entries@),
            ),
    {
        let ghost old_ids: Seq<Seq<char>> = if self.files().dom().contains(file_path@) {
            self.files()[file_path@]
        } else {
            Seq::empty()
        };
        let old_ids_vec = match self.by_file.remove(file_path) {
            Some(v) => v,
            None => Vec::new(),
        };
        assert(strings_v(old_ids_vec@) == old_ids);
        let prev = old_ids_vec.len();
        let mut i: usize = 0;
        let ghost e0 = self.entries();
        assert(old_ids.take(0) =~= Seq::<Seq<char>>::empty());
        while i < old_ids_vec.len()
            invariant
                i <= old_ids_vec@.len(),
                strings_v(old_ids_vec@) == old_ids,
                self.entries() == remove_all(e0, old_ids.take(i as int)),
                self.files() == old(self).files().remove(file_path@),
            decreases old_ids_vec.len() - i,
        {
            assert(old_ids.take(i + 1).drop_last() =~= old_ids.take(i as int));
            let _ = self.by_id.remove(old_ids_vec[i].as_str());
            assert(self.entries() =~= remove_all(e0, old_ids.take(i as int)).remove(old_ids[i as int]));
            i = i + 1;
        }
        assert(old_ids.take(old_ids.len() as int) =~= old_ids);
        let ghost ev = entries_v(entries@);
        let mut new_ids: Vec<String> = Vec::new();
        let mut k: usize = 0;
        while k < entries.len()
            invariant
                k <= entries@.len(),
                ev == entries_v(entries@),
                strings_v(new_ids@) == ids_of(ev).take(k as int),
            decreases entries.len() - k,
        {
            let ghost before = strings_v(new_ids@);
            let id = entries[k].id.clone();
            assert(id@ == ev[k as int].id);
            new_ids.push(id);
            assert(strings_v(new_ids@) =~= before.push(id@));
            assert(ids_of(ev).take(k + 1) =~= ids_of(ev).take(k as int).push(ev[k as int].id));
            k = k + 1;
        }
        assert(ids_of(ev).take(ev.len() as int) =~= ids_of(ev));
        let ghost base = self.entries();
        let mut rest = entries;
        let mut rev: Vec<IndexEntry> = Vec::new();
        while rest.len() > 0
            invariant
                entries_v(rest@) + entries_v(rev@).reverse() == ev,
            decreases rest.len(),
        {
            let ghost r0 = rest@;
            let ghost v0 = rev@;
            let e = rest.pop().unwrap();
            rev.push(e);
            assert(entries_v(r0) =~= entries_v(rest@).push(e@));
            assert(entries_v(rev@).reverse() =~= seq![e@] + entries_v(v0).reverse());
            assert(entries_v(rest@) + entries_v(rev@).reverse() =~= entries_v(r0) + entries_v(
                v0,
            ).reverse());
        }
        assert(entries_v(rest@) =~= Seq::<IndexEntryV>::empty());
        assert(entries_v(rev@).reverse() =~= ev);
        let ghost m = ev.len();
        while rev.len() > 0
            invariant
                entries_v(rev@).reverse() == ev.skip(m - rev@.len()),
                rev@.len() <= m,
                m == ev.len(),
                self.entries() == put_all(base, ev.take(m - rev@.len())),
                self.files() == old(self).files().remove(file_path@),
            decreases rev.len(),
        {
            let ghost v0 = rev@;
            let ghost j = m - v0.len();
            let e = rev.pop().unwrap();
            assert(entries_v(v0).reverse()[0] == e@);
            assert(ev[j] == e@);
            assert(entries_v(rev@).reverse() =~= entries_v(v0).reverse().drop_first());
            assert(ev.take(j + 1).drop_last() =~= ev.take(j));
            self.by_id.insert(e.id.clone(), e);
            assert(self.entries() =~= put_all(base, ev.take(j)).insert(e@.id, e@));
        }
        assert(ev.take(m as int) =~= ev);
        assert(strings_v(new_ids@) == ids_of(ev));
        let ghost f0 = self.by_file.map();
        self.by_file.insert(string_from(file_path), new_ids);
        let ghost fv0 = f0.map_values(|v: Vec<String>| strings_v(v@));
        assert(fv0 == old(self).files().remove(file_path@));
        assert(self.files() =~= fv0.insert(file_path@, ids_of(ev)));
        assert(fv0.insert(file_path@, ids_of(ev)) =~= old(self).files().insert(file_path@, ids_of(ev)));
        prev
    }

    /// A file's entries, in the order they were stored.
    pub fn get_file_entries(&self, file_path: &str) -> (r: Vec<IndexEntry>)
        ensures
            entries_v(r@) == (if self.files().dom().contains(file_path@) {
                lookup_all(self.entries(), self.files()[file_path@])
            } else {
                Seq::empty()
            }),
    {
        let mut r: Vec<IndexEntry> = Vec::new();
        match self.by_file.get(file_path) {
            Some(ids) => {
                let ghost iv = strings_v(ids@);
                assert(iv.take(0) =~= Seq::<Seq<char>>::empty());
                let mut i: usize = 0;
                while i < ids.len()
                    invariant
                        i <= ids@.len(),
                        iv == strings_v(ids@),
                        entries_v(r@) == lookup_all(self.entries(), iv.take(i as int)),
                    decreases ids.len() - i,
                {
                    assert(iv.take(i + 1).drop_last() =~= iv.take(i as int));
                    match self.by_id.get(ids[i].as_str()) {
                        Some(e) => {
                            let ghost before = entries_v(r@);
                            let d = e.duplicate();
                            r.push(d);
                            assert(entries_v(r@) =~= before.push(d@));
                        },
                        None => {},
                    }
                    i = i + 1;
                }
                assert(iv.take(iv.len() as int) =~= iv);
            },
            None => {
                assert(entries_v(r@) =~= Seq::<IndexEntryV>::empty());
            },
        }
        r
    }

    pub fn get_entry(&self, id: &str) -> (r: Option<IndexEntry>)
        ensures
            match r {
                Some(e) => self.entries().dom().contains(id@) && e@ == self.entries()[id@],
                None => !self.entries().dom().contains(id@),
            },
    {
        match self.by_id.get(id) {
            Some(e) => Some(e.duplicate()),
            None => None,
        }
    }

    /// All entries, in id order.
    pub fn all_entries(&self) -> (r: Vec<&IndexEntry>)
        ensures
            r@.map_values(|e: &IndexEntry| e@) == self.entry_seq(),
    {
        let v = self.by_id.values();
        proof {
            self.by_id.lemma_lengths();
        }
        assert(v@.map_values(|e: &IndexEntry| e@) =~= self.entry_seq());
        v
    }
}

impl Default for IndexStore {
    fn default() -> (s: Self)
        ensures
            s.entries() == EntryMap::empty(),
            s.files() == Map::<Seq<char>, Seq<Seq<char>>>::empty(),
            s.entry_seq() == Seq::<IndexEntryV>::empty(),
    {
        IndexStore::new()
    }
}

proof fn lemma_put_all_keeps(m: EntryMap, es: Seq<IndexEntryV>, k: Seq<char>)
    requires
        !ids_of(es).contains(k),
    ensures
        put_all(m, es).dom().contains(k) == m.dom().contains(k),
        m.dom().contains(k) ==> put_all(m, es)[k] == m[k],
    decreases es.len(),
{
    if es.len() > 0 {
        assert(ids_of(es.drop_last()) =~= ids_of(es).drop_last());
        assert(ids_of(es)[es.len() - 1] == es.last().id);
        if ids_of(es.drop_last()).contains(k) {
            let j = ids_of(es.drop_last()).index_of(k);
            assert(ids_of(es)[j] == k);
        }
        lemma_put_all_keeps(m, es.drop_last(), k);
    }
}

proof fn lemma_put_all_finds(m: EntryMap, es: Seq<IndexEntryV>, i: int)
    requires
        0 <= i < es.len(),
        forall|a: int, b: int| 0 <= a < b < es.len() ==> es[a].id != es[b].id,
    ensures
        put_all(m, es).dom().contains(es[i].id),
        put_all(m, es)[es[i].id] == es[i],
    decreases es.len(),
{
    if i < es.len() - 1 {
        lemma_put_all_finds(m, es.drop_last(), i);
    }
}

proof fn lemma_remove_all_frame(m: EntryMap, ids: Seq<Seq<char>>, k: Seq<char>)
    requires
        !ids.contains(k),
    ensures
        remove_all(m, ids).dom().contains(k) == m.dom().contains(k),
        m.dom().contains(k) ==> remove_all(m, ids)[k] == m[k],
    decreases ids.len(),
{
    if ids.len() > 0 {
        assert(!ids.drop_last().contains(k)) by {
            if ids.drop_last().contains(k) {
                let j = choose|j: int| 0 <= j < ids.drop_last().len() && ids.drop_last()[j] == k;
                assert(ids[j] == k);
            }
        }
        assert(ids[ids.len() - 1] != k);
        lemma_remove_all_frame(m, ids.drop_last(), k);
    }
}

proof fn lemma_put_all_frame(m: EntryMap, es: Seq<IndexEntryV>, k: Seq<char>)
    requires
        !ids_of(es).contains(k),
    ensures
        put_all(m, es).dom().contains(k) == m.dom().contains(k),
        m.dom().contains(k) ==> put_all(m, es)[k] == m[k],
    decreases es.len(),
{
    if es.len() > 0 {
        let p = es.drop_last();
        assert(ids_of(es)[es.len() - 1] == es.last().id);
        assert(!ids_of(p).contains(k)) by {
            if ids_of(p).contains(k) {
                let j = choose|j: int| 0 <= j < ids_of(p).len() && ids_of(p)[j] == k;
                assert(ids_of(es)[j] == k);
            }
        }
        lemma_put_all_frame(m, p, k);
    }
}

proof fn lemma_put_all_own(x: EntryMap, y: EntryMap, es: Seq<IndexEntryV>, k: Seq<char>)
    requires
        ids_of(es).contains(k),
    ensures
        put_all(x, es).dom().contains(k),
        put_all(y, es).dom().contains(k),
        put_all(x, es)[k] == put_all(y, es)[k],
    decreases es.len(),
{
    let p = es.drop_last();
    if es.last().id != k {
        assert(ids_of(p).contains(k)) by {
            let j = choose|j: int| 0 <= j < ids_of(es).len() && ids_of(es)[j] == k;
            assert(j != es.len() - 1);
            assert(ids_of(p)[j] == k);
        }
        lemma_put_all_own(x, y, p, k);
    }
}

/// Replacing a file's entries leaves alone every entry whose id is neither among the file's
/// old ids nor among its new entries' ids.
pub proof fn law_replace_keeps_others(m: EntryMap, old_ids: Seq<Seq<char>>, es: Seq<IndexEntryV>, k: Seq<char>)
    requires
        !old_ids.contains(k),
        !ids_of(es).contains(k),
    ensures
        put_all(remove_all(m, old_ids), es).dom().contains(k) == m.dom().contains(k),
        m.dom().contains(k) ==> put_all(remove_all(m, old_ids), es)[k] == m[k],
{
    lemma_remove_all_frame(m, old_ids, k);
    lemma_put_all_frame(remove_all(m, old_ids), es, k);
}

/// Replacing a file's entries a second time with the same entries leaves the entries as the
/// first replace left them: the second replace drops the ids the first one stored and stores
/// the same entries again.
pub proof fn law_replace_idempotent(m: EntryMap, es: Seq<IndexEntryV>)
    ensures
        put_all(remove_all(put_all(m, es), ids_of(es)), es) == put_all(m, es),
{
    let once = put_all(m, es);
    let twice = put_all(remove_all(once, ids_of(es)), es);
    assert forall|k: Seq<char>| #[trigger] twice.dom().contains(k) == once.dom().contains(k) && (
    once.dom().contains(k) ==> twice[k] == once[k]) by {
        if ids_of(es).contains(k) {
            lemma_put_all_own(remove_all(once, ids_of(es)), m, es, k);
        } else {
            lemma_put_all_frame(remove_all(once, ids_of(es)), es, k);
            lemma_remove_all_frame(once, ids_of(es), k);
        }
    }
    assert(twice =~= once);
}

/// Storing a file's entries and reading them back gives those entries, in order, when their
/// ids are distinct.
pub proof fn law_replace_then_get(m: EntryMap, es: Seq<IndexEntryV>)
    requires
        forall|a: int, b: int| 0 <= a < b < es.len() ==> es[a].id != es[b].id,
    ensures
        lookup_all(put_all(m, es), ids_of(es)) == es,
    decreases es.len(),
{
    if es.len() > 0 {
        let pre = es.drop_last();
        law_replace_then_get(m, pre);
        let full = put_all(m, es);
        let last = es.last();
        assert(ids_of(es).drop_last() =~= ids_of(pre));
        assert(!ids_of(pre).contains(last.id)) by {
            if ids_of(pre).contains(last.id) {
                let j = ids_of(pre).index_of(last.id);
                assert(es[j].id == es[es.len() - 1].id);
            }
        }
        // the earlier entries are unaffected by the last insert
        assert(lookup_all(full, ids_of(pre)) == lookup_all(put_all(m, pre), ids_of(pre))) by {
            lemma_lookup_agree(put_all(m, pre), full, ids_of(pre), last.id);
        }
        lemma_put_all_finds(m, es, es.len() - 1);
        assert(es =~= pre.push(last));
    }
}

proof fn lemma_lookup_agree(m1: EntryMap, m2: EntryMap, ids: Seq<Seq<char>>, k: Seq<char>)
    requires
        !ids.contains(k),
        m2 == m1.insert(k, m2[k]),
    ensures
        lookup_all(m2, ids) == lookup_all(m1, ids),
    decreases ids.len(),
{
    if ids.len() > 0 {
        assert(!ids.drop_last().contains(k)) by {
            if ids.drop_last().contains(k) {
                let j = ids.drop_last().index_of(k);
                assert(ids[j] == k);
            }
        }
        lemma_lookup_agree(m1, m2, ids.drop_last(), k);
        assert(ids.last() != k) by {
            assert(ids[ids.len() - 1] == ids.last());
        }
    }
}

} // verus!
