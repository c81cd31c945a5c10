//! An ordered map keyed by strings: entries are kept sorted by key in the
//! lexicographic order of their characters (the order of `String`'s `Ord`),
//! and no key occurs twice.

use vstd::prelude::*;
use crate::text::chars_of;

verus! {

/// `a` comes strictly before `b` in lexicographic character order.
pub open spec fn lex_lt(a: Seq<char>, b: Seq<char>) -> bool
    decreases a.len(),
{
    if a.len() == 0 {
        b.len() > 0
    } else if b.len() == 0 {
        false
    } else if a[0] != b[0] {
        (a[0] as int) < (b[0] as int)
    } else {
        lex_lt(a.drop_first(), b.drop_first())
    }
}

pub proof fn lemma_lex_irrefl(a: Seq<char>)
    ensures
        !lex_lt(a, a),
    decreases a.len(),
{
    if a.len() > 0 {
        lemma_lex_irrefl(a.drop_first());
    }
}

pub proof fn lemma_lex_trans(a: Seq<char>, b: Seq<char>, c: Seq<char>)
    requires
        lex_lt(a, b),
        lex_lt(b, c),
    ensures
        lex_lt(a, c),
    decreases a.len(),
{
    if a.len() > 0 && b.len() > 0 && c.len() > 0 {
        if a[0] == b[0] && b[0] == c[0] {
            lemma_lex_trans(a.drop_first(), b.drop_first(), c.drop_first());
        }
    }
}

pub proof fn lemma_lex_total(a: Seq<char>, b: Seq<char>)
    ensures
        a =~= b || lex_lt(a, b) || lex_lt(b, a),
    decreases a.len(),
{
    if a.len() > 0 && b.len() > 0 && a[0] == b[0] {
        lemma_lex_total(a.drop_first(), b.drop_first());
        if a.drop_first() =~= b.drop_first() {
            assert(a =~= seq![a[0]] + a.drop_first());
            assert(b =~= seq![b[0]] + b.drop_first());
        }
    }
}

pub proof fn lemma_lex_asym(a: Seq<char>, b: Seq<char>)
    requires
        lex_lt(a, b),
    ensures
        !lex_lt(b, a),
{
    if lex_lt(b, a) {
        lemma_lex_trans(a, b, a);
        lemma_lex_irrefl(a);
    }
}

/// Whether `a` comes strictly before `b`.
pub fn str_lt(a: &str, b: &str) -> (r: bool)
    ensures
        r == lex_lt(a@, b@),
{
    let ca = chars_of(a);
    let cb = chars_of(b);
    let mut i: usize = 0;
    assert(a@.skip(0) =~= a@);
    assert(b@.skip(0) =~= b@);
    while i < ca.len() && i < cb.len() && ca[i] == cb[i]
        invariant
            i <= ca@.len(),
            i <= cb@.len(),
            ca@ == a@,
            cb@ == b@,
            lex_lt(a@, b@) == lex_lt(a@.skip(i as int), b@.skip(i as int)),
        decreases ca.len() - i,
    {
        assert(a@.skip(i as int).drop_first() =~= a@.skip(i + 1));
        assert(b@.skip(i as int).drop_first() =~= b@.skip(i + 1));
        i = i + 1;
    }
    if i == ca.len() {
        i < cb.len()
    } else if i == cb.len() {
        false
    } else {
        ca[i] < cb[i]
    }
}

/// Keys strictly increasing.
pub open spec fn sorted_keys(k: Seq<Seq<char>>) -> bool {
    forall|i: int, j: int| 0 <= i < j < k.len() ==> lex_lt(k[i], k[j])
}

pub struct StrMap<V> {
    entries: Vec<(String, V)>,
}

impl<V> StrMap<V> {
    /// The keys, in increasing order.
    pub closed spec fn key_seq(&self) -> Seq<Seq<char>> {
        self.entries@.map_values(|e: (String, V)| e.0@)
    }

    /// The values, in the order of their keys.
    pub closed spec fn val_seq(&self) -> Seq<V> {
        self.entries@.map_values(|e: (String, V)| e.1)
    }

    #[verifier::type_invariant]
    closed spec fn sorted(&self) -> bool {
        sorted_keys(self.key_seq())
    }


    /// The map as a mathematical map.
    pub open spec fn map(&self) -> Map<Seq<char>, V> {
        Map::new(
            |k: Seq<char>| self.key_seq().contains(k),
            |k: Seq<char>| self.val_seq()[self.key_seq().index_of(k)],
        )
    }

    pub proof fn lemma_lengths(&self)
        ensures
            self.key_seq().len() == self.val_seq().len(),
    {
    }

    /// With its keys in increasing order, the map sends the key at `i` to the value at `i`.
    pub proof fn lemma_key_value(&self, i: int)
        requires
            sorted_keys(self.key_seq()),
            0 <= i < self.key_seq().len(),
        ensures
            self.map().dom().contains(self.key_seq()[i]),
            self.map()[self.key_seq()[i]] == self.val_seq()[i],
    {
        self.lemma_index_of(i);
    }

    /// In a well-formed map, the key at `i` is found at `i`.
    proof fn lemma_index_of(&self, i: int)
        requires
            self.sorted(),
            0 <= i < self.key_seq().len(),
        ensures
            self.key_seq().index_of(self.key_seq()[i]) == i,
            self.map().dom().contains(self.key_seq()[i]),
            self.map()[self.key_seq()[i]] == self.val_seq()[i],
    {
        let k = self.key_seq();
        let j = k.index_of(k[i]);
        assert(k.contains(k[i]));
        if j != i {
            if j < i {
                lemma_lex_irrefl(k[i]);
            } else {
                lemma_lex_irrefl(k[i]);
            }
        }
    }

    pub fn new() -> (m: Self)
        ensures
            m.key_seq() == Seq::<Seq<char>>::empty(),
            m.val_seq() == Seq::<V>::empty(),
            m.map() == Map::<Seq<char>, V>::empty(),
    {
        let m = StrMap { entries: Vec::new() };
        assert(m.key_seq() =~= Seq::empty());
        assert(m.val_seq() =~= Seq::empty());
        assert(m.map() =~= Map::empty());
        m
    }

    pub fn len(&self) -> (n: usize)
        ensures
            n == self.key_seq().len(),
            n == self.map().dom().len(),
            self.map().dom().finite(),
            sorted_keys(self.key_seq()),
            self.val_seq().len() == self.key_seq().len(),
    {
        proof {
            use_type_invariant(self);
            self.lemma_dom_len();
        }
        self.entries.len()
    }

    pub fn key_at(&self, i: usize) -> (k: &String)
        requires
            i < self.key_seq().len(),
        ensures
            k@ == self.key_seq()[i as int],
            self.key_seq().index_of(k@) == i,
            self.map().dom().contains(k@),
            self.map()[k@] == self.val_seq()[i as int],
    {
        proof {
            use_type_invariant(self);
            self.lemma_index_of(i as int);
        }
        &self.entries[i].0
    }

    proof fn lemma_dom_len(&self)
        requires
            self.sorted(),
        ensures
            self.map().dom().finite(),
            self.map().dom().len() == self.key_seq().len(),
            forall|k: Seq<char>| #[trigger] self.map().dom().contains(k) <==> self.key_seq().contains(k),
    {
        let ks = self.key_seq();
        assert(self.map().dom() =~= ks.to_set());
        assert forall|a: int, b: int| 0 <= a < ks.len() && 0 <= b < ks.len() && a != b implies ks[a]
            != ks[b] by {
            if a < b {
                lemma_lex_irrefl(ks[a]);
            } else {
                lemma_lex_irrefl(ks[b]);
            }
        }
        ks.unique_seq_to_set();
    }

    pub fn value_at(&self, i: usize) -> (v: &V)
        requires
            i < self.key_seq().len(),
        ensures
            *v == self.val_seq()[i as int],
    {
        &self.entries[i].1
    }

    /// The position of the first key that is not below `k`.
    fn lower_bound(&self, k: &str) -> (i: usize)
        requires
            self.sorted(),
        ensures
            i <= self.key_seq().len(),
            forall|j: int| 0 <= j < i ==> lex_lt(#[trigger] self.key_seq()[j], k@),
            i < self.key_seq().len() ==> !lex_lt(self.key_seq()[i as int], k@),
    {
        let mut i: usize = 0;
        while i < self.entries.len() && str_lt(self.entries[i].0.as_str(), k)
            invariant
                i <= self.key_seq().len(),
                self.key_seq().len() == self.entries@.len(),
                forall|j: int| 0 <= j < i ==> lex_lt(#[trigger] self.key_seq()[j], k@),
            decreases self.entries.len() - i,
        {
            i = i + 1;
        }
        i
    }

    /// The position of key `k`, if present.
    pub fn find(&self, k: &str) -> (r: Option<usize>)
        ensures
            match r {
                Some(i) => i < self.key_seq().len() && self.key_seq()[i as int] == k@,
                None => !self.key_seq().contains(k@),
            },
    {
        proof {
            use_type_invariant(self);
        }
        let i = self.lower_bound(k);
        if i < self.entries.len() && crate::text::str_eq(self.entries[i].0.as_str(), k) {
            Some(i)
        } else {
            proof {
                if self.key_seq().contains(k@) {
                    let j = self.key_seq().index_of(k@);
                    lemma_lex_irrefl(k@);
                    if j >= i {
                        if j > i {
                            lemma_lex_total(self.key_seq()[i as int], k@);
                        }
                    }
                }
            }
            None
        }
    }

    pub fn get(&self, k: &str) -> (r: Option<&V>)
        ensures
            match r {
                Some(v) => self.map().dom().contains(k@) && self.map()[k@] == *v,
                None => !self.map().dom().contains(k@),
            },
    {
        proof {
            use_type_invariant(self);
        }
        match self.find(k) {
            Some(i) => {
                proof {
                    self.lemma_index_of(i as int);
                }
                Some(&self.entries[i].1)
            },
            None => None,
        }
    }

    pub fn contains_key(&self, k: &str) -> (b: bool)
        ensures
            b == self.map().dom().contains(k@),
    {
        proof {
            use_type_invariant(self);
        }
        self.find(k).is_some()
    }

    /// Sets the value for `k`, replacing any earlier one.
    pub fn insert(&mut self, k: String, v: V)
        ensures
            final(self).map() == old(self).map().insert(k@, v),
    {
        proof {
            use_type_invariant(&*self);
        }
        let ghost k0 = old(self).key_seq();
        let i = self.lower_bound(k.as_str());
        if i < self.entries.len() && crate::text::str_eq(self.entries[i].0.as_str(), k.as_str()) {
            let ghost kv = k@;
            let mut es: Vec<(String, V)> = Vec::new();
            std::mem::swap(&mut es, &mut self.entries);
            es.set(i, (k, v));
            assert(es@.map_values(|e: (String, V)| e.0@) =~= k0.update(i as int, kv));
            assert(k0.update(i as int, kv) =~= k0);
            self.entries = es;
            assert(self.key_seq() =~= k0.update(i as int, kv));
            assert(self.val_seq() =~= old(self).val_seq().update(i as int, v));
            proof {
                assert(self.sorted());
                assert forall|key: Seq<char>| #![auto]
                    self.map().dom().contains(key) == old(self).map().insert(kv, v).dom().contains(key) by {
                    if key == kv {
                        assert(self.key_seq()[i as int] == kv);
                    } else if old(self).key_seq().contains(key) {
                        let j = old(self).key_seq().index_of(key);
                        assert(self.key_seq()[j] == key);
                    } else if self.key_seq().contains(key) {
                        let j = self.key_seq().index_of(key);
                        assert(old(self).key_seq()[j] == key);
                    }
                }
                assert forall|key: Seq<char>| #[trigger] self.map().dom().contains(key) implies
                    self.map()[key] == old(self).map().insert(kv, v)[key] by {
                    let j = self.key_seq().index_of(key);
                    self.lemma_index_of(j);
                    if key != kv {
                        old(self).lemma_index_of(j);
                    }
                }
                assert(self.map() =~= old(self).map().insert(kv, v));
            }
        } else {
            let ghost kv = k@;
            let mut es: Vec<(String, V)> = Vec::new();
            std::mem::swap(&mut es, &mut self.entries);
            es.insert(i, (k, v));
            let ghost nk = es@.map_values(|e: (String, V)| e.0@);
            assert(nk =~= k0.insert(i as int, kv));
            proof {
                if i < k0.len() {
                    lemma_lex_total(k0[i as int], kv);
                }
                assert forall|a: int, b: int| 0 <= a < b < nk.len() implies lex_lt(nk[a], nk[b]) by {
                    if a < i && b > i {
                        if b > i + 1 {
                            lemma_lex_trans(kv, k0[i as int], nk[b]);
                        }
                        lemma_lex_trans(nk[a], kv, nk[b]);
                    } else if a == i && b > i + 1 {
                        lemma_lex_trans(kv, k0[i as int], nk[b]);
                    }
                }
            }
            self.entries = es;
            assert(self.key_seq() =~= k0.insert(i as int, kv));
            assert(self.val_seq() =~= old(self).val_seq().insert(i as int, v));
            proof {
                if i < k0.len() {
                    lemma_lex_total(k0[i as int], kv);
                }
                assert forall|a: int, b: int| 0 <= a < b < self.key_seq().len() implies lex_lt(
                    self.key_seq()[a],
                    self.key_seq()[b],
                ) by {
                    if a < i && b > i {
                        if b > i + 1 {
                            lemma_lex_trans(kv, k0[i as int], self.key_seq()[b]);
                        }
                        lemma_lex_trans(self.key_seq()[a], kv, self.key_seq()[b]);
                    } else if a == i && b > i + 1 {
                        lemma_lex_trans(kv, k0[i as int], self.key_seq()[b]);
                    }
                }
                assert(self.sorted());
                assert forall|key: Seq<char>| #![auto]
                    self.map().dom().contains(key) == old(self).map().insert(kv, v).dom().contains(key) by {
                    if key == kv {
                        assert(self.key_seq()[i as int] == kv);
                    } else if old(self).key_seq().contains(key) {
                        let j = old(self).key_seq().index_of(key);
                        if j < i {
                            assert(self.key_seq()[j] == key);
                        } else {
                            assert(self.key_seq()[j + 1] == key);
                        }
                    } else if self.key_seq().contains(key) {
                        let j = self.key_seq().index_of(key);
                        if j < i {
                            assert(old(self).key_seq()[j] == key);
                        } else {
                            assert(old(self).key_seq()[j - 1] == key);
                        }
                    }
                }
                assert forall|key: Seq<char>| #[trigger] self.map().dom().contains(key) implies
                    self.map()[key] == old(self).map().insert(kv, v)[key] by {
                    let j = self.key_seq().index_of(key);
                    assert(self.key_seq().contains(key));
                    assert(0 <= j < self.key_seq().len() && self.key_seq()[j] == key);
                    self.lemma_index_of(j);
                    if key == kv {
                        self.lemma_index_of(i as int);
                    }
                    if key != kv {
                        if j < i {
                            assert(old(self).key_seq()[j] == key);
                            old(self).lemma_index_of(j);
                        } else {
                            assert(j != i);
                            assert(old(self).key_seq()[j - 1] == key);
                            old(self).lemma_index_of(j - 1);
                        }
                    }
                }
                assert(self.map() =~= old(self).map().insert(kv, v));
            }
        }
    }

    /// Appends an entry whose key comes after every key present.
    pub fn push_last(&mut self, k: String, v: V)
        requires
            old(self).key_seq().len() == 0 || lex_lt(old(self).key_seq().last(), k@),
        ensures
            final(self).key_seq() == old(self).key_seq().push(k@),
            final(self).val_seq() == old(self).val_seq().push(v),
    {
        proof {
            use_type_invariant(&*self);
        }
        let ghost k0 = self.key_seq();
        let ghost kv = k@;
        let mut es: Vec<(String, V)> = Vec::new();
        std::mem::swap(&mut es, &mut self.entries);
        es.push((k, v));
        proof {
            let nk = es@.map_values(|e: (String, V)| e.0@);
            assert(nk =~= k0.push(kv));
            assert forall|a: int, b: int| 0 <= a < b < nk.len() implies lex_lt(nk[a], nk[b]) by {
                if b == k0.len() && a < k0.len() - 1 {
                    lemma_lex_trans(k0[a], k0.last(), kv);
                }
            }
        }
        self.entries = es;
        assert(self.key_seq() =~= k0.push(kv));
        assert(self.val_seq() =~= old(self).val_seq().push(v));
    }

    /// References to the values, in the order of their keys.
    pub fn values(&self) -> (r: Vec<&V>)
        ensures
            r@.len() == self.val_seq().len(),
            forall|i: int| 0 <= i < r@.len() ==> *r@[i] == self.val_seq()[i],
    {
        let mut r: Vec<&V> = Vec::new();
        let mut i: usize = 0;
        while i < self.entries.len()
            invariant
                i <= self.entries@.len(),
                r@.len() == i,
                self.val_seq().len() == self.entries@.len(),
                forall|j: int| 0 <= j < i ==> *r@[j] == self.val_seq()[j],
            decreases self.entries.len() - i,
        {
            r.push(&self.entries[i].1);
            i = i + 1;
        }
        r
    }

    /// References to the keys, in increasing order.
    pub fn keys(&self) -> (r: Vec<&String>)
        ensures
            r@.len() == self.key_seq().len(),
            forall|i: int| 0 <= i < r@.len() ==> r@[i]@ == self.key_seq()[i],
    {
        let mut r: Vec<&String> = Vec::new();
        let mut i: usize = 0;
        while i < self.entries.len()
            invariant
                i <= self.entries@.len(),
                r@.len() == i,
                self.key_seq().len() == self.entries@.len(),
                forall|j: int| 0 <= j < i ==> r@[j]@ == self.key_seq()[j],
            decreases self.entries.len() - i,
        {
            r.push(&self.entries[i].0);
            i = i + 1;
        }
        r
    }

    /// Removes the entry for `k`, returning its value if it was present.
    pub fn remove(&mut self, k: &str) -> (r: Option<V>)
        ensures
            final(self).map() == old(self).map().remove(k@),
            match r {
                Some(v) => old(self).map().dom().contains(k@) && old(self).map()[k@] == v,
                None => !old(self).map().dom().contains(k@),
            },
    {
        proof {
            use_type_invariant(&*self);
        }
        match self.find(k) {
            None => {
                assert(self.map() =~= old(self).map().remove(k@));
                None
            },
            Some(i) => {
                proof {
                    self.lemma_index_of(i as int);
                }
                let ghost k0 = self.key_seq();
                let ghost v0 = self.val_seq();
                let mut es: Vec<(String, V)> = Vec::new();
                std::mem::swap(&mut es, &mut self.entries);
                let (_, v) = es.remove(i);
                proof {
                    let nk = es@.map_values(|e: (String, V)| e.0@);
                    assert(nk =~= k0.remove(i as int));
                    assert forall|a: int, b: int| 0 <= a < b < nk.len() implies lex_lt(nk[a], nk[b]) by {
                        let a0 = if a < i { a } else { a + 1 };
                        let b0 = if b < i { b } else { b + 1 };
                        assert(nk[a] == k0[a0]);
                        assert(nk[b] == k0[b0]);
                    }
                }
                self.entries = es;
                assert(self.key_seq() =~= k0.remove(i as int));
                assert(self.val_seq() =~= v0.remove(i as int));
                proof {
                    assert(self.sorted());
                    assert forall|key: Seq<char>| #![auto]
                        self.map().dom().contains(key) == old(self).map().remove(k@).dom().contains(key) by {
                        if self.key_seq().contains(key) {
                            let j = self.key_seq().index_of(key);
                            let j0 = if j < i { j } else { j + 1 };
                            assert(k0[j0] == key);
                            if key == k@ {
                                lemma_lex_irrefl(key);
                                if j0 < i {
                                    assert(lex_lt(k0[j0], k0[i as int]));
                                } else {
                                    assert(lex_lt(k0[i as int], k0[j0]));
                                }
                            }
                        } else if old(self).key_seq().contains(key) && key != k@ {
                            let j0 = old(self).key_seq().index_of(key);
                            assert(j0 != i);
                            let j = if j0 < i { j0 } else { j0 - 1 };
                            assert(self.key_seq()[j] == key);
                        }
                    }
                    assert forall|key: Seq<char>| #[trigger] self.map().dom().contains(key) implies
                        self.map()[key] == old(self).map().remove(k@)[key] by {
                        let j = self.key_seq().index_of(key);
                        self.lemma_index_of(j);
                        let j0 = if j < i { j } else { j + 1 };
                        old(self).lemma_index_of(j0);
                    }
                    assert(self.map() =~= old(self).map().remove(k@));
                }
                Some(v)
            },
        }
    }
}

} // verus!
