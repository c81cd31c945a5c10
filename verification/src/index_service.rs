//! The index service: indexes the source text of each requested file into its store, tallies
//! the entries as newly indexed or as updates, and answers lookups. Reading the files stays
//! with the caller, which hands in each file's text.

use vstd::prelude::*;
use crate::records::{FileRef, IndexEntry, IndexEntryV};
use crate::store::{EntryMap, IndexStore, ids_of, lookup_all, put_all, remove_all};
use crate::symbol_index::{SymbolIndexer, entries_v, index_file_s, indexable};
use crate::text::{push_str, string_from};

verus! {

/// The running counts of a request: entries of files seen for the first time, and entries
/// of files that had entries before.
#[derive(Debug, Clone, Copy, PartialEq, Eq, Structural)]
pub struct IndexTally {
    pub indexed: i32,
    pub updated: i32,
}

/// The index service's state: its store and indexer.
pub struct IndexServer {
    store: IndexStore,
    indexer: SymbolIndexer,
}

/// The ids a file had in the store.
pub open spec fn previous_ids(files: Map<Seq<char>, Seq<Seq<char>>>, path: Seq<char>) -> Seq<Seq<char>> {
    if files.dom().contains(path) {
        files[path]
    } else {
        Seq::empty()
    }
}

/// The tally after a file's `count` entries: updates where the file had entries, else new.
pub open spec fn tally_after(t: IndexTally, had_entries: bool, count: nat) -> IndexTally {
    if had_entries {
        IndexTally { indexed: t.indexed, updated: t.updated.wrapping_add(count as i32) }
    } else {
        IndexTally { indexed: t.indexed.wrapping_add(count as i32), updated: t.updated }
    }
}

impl IndexServer {
    /// Entry id to entry, in the store.
    pub closed spec fn entries(&self) -> EntryMap {
        self.store.entries()
    }

    /// File path to the ids of its entries, in the store.
    pub closed spec fn files(&self) -> Map<Seq<char>, Seq<Seq<char>>> {
        self.store.files()
    }

    /// The store's entries, in id order.
    pub closed spec fn entry_seq(&self) -> Seq<IndexEntryV> {
        self.store.entry_seq()
    }

    pub fn new() -> (s: Self)
        ensures
            s.entries() == EntryMap::empty(),
            s.files() == Map::<Seq<char>, Seq<Seq<char>>>::empty(),
            s.entry_seq() == Seq::<IndexEntryV>::empty(),
    {
        IndexServer { store: IndexStore::new(), indexer: SymbolIndexer }
    }

    /// The store.
    pub fn store(&self) -> (r: &IndexStore)
        ensures
            r.entries() == self.entries(),
            r.files() == self.files(),
            r.entry_seq() == self.entry_seq(),
    {
        &self.store
    }

    /// Indexes a file's source text: its entries replace the file's old ones in the store,
    /// and they count as updates where the file had entries, else as newly indexed (each
    /// count converted to `i32` as a cast does, sums wrapping).
    pub fn index_source(&mut self, file_ref: &FileRef, source: &str, workspace_id: &str, tally: IndexTally) -> (r: IndexTally)
        requires
            indexable(source@),
        ensures
            ({
                let es = index_file_s(workspace_id@, *file_ref, source@);
                let prev = previous_ids(old(self).files(), file_ref.path@);
                &&& final(self).files() == old(self).files().insert(file_ref.path@, ids_of(es))
                &&& final(self).entries() == put_all(remove_all(old(self).entries(), prev), es)
                &&& r == tally_after(tally, prev.len() > 0, es.len())
            }),
    {
        let entries = self.indexer.index_file(file_ref, source, workspace_id);
        let count = entries.len() as i32;
        let prev = self.store.replace_file_entries(file_ref.path.as_str(), entries);
        if prev > 0 {
            IndexTally { indexed: tally.indexed, updated: tally.updated.wrapping_add(count) }
        } else {
            IndexTally { indexed: tally.indexed.wrapping_add(count), updated: tally.updated }
        }
    }

    /// The entries of a file, in the order they were indexed.
    pub fn get_entries(&self, file_path: &str) -> (r: Vec<IndexEntry>)
        ensures
            entries_v(r@) == lookup_all(self.entries(), previous_ids(self.files(), file_path@)),
    {
        self.store.get_file_entries(file_path)
    }

    /// An entry by id, or the not-found message.
    pub fn get_entry(&self, id: &str) -> (r: Result<IndexEntry, String>)
        ensures
            match r {
                Ok(e) => self.entries().dom().contains(id@) && e@ == self.entries()[id@],
                Err(m) => !self.entries().dom().contains(id@) && m@ == "entry "@ + id@ + " not found"@,
            },
    {
        match self.store.get_entry(id) {
            Some(e) => Ok(e),
            None => {
                let mut m = string_from("entry ");
                push_str(&mut m, id);
                push_str(&mut m, " not found");
                Err(m)
            },
        }
    }
}

} // verus!
