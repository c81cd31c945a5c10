//! Selectors: pure, total matching over IR nodes, with no policy and no side effects.
//!
//! Syntax (CSS-like, match-only):
//!   kind(FN)         nodes of a kind (ASCII case ignored)
//!   [attr]           nodes having an attribute key
//!   [attr=value]     attribute equals value
//!   [attr~=substr]   attribute contains substring
//!   *                any node
//! Parts separated by whitespace mean containment: `kind(FN) kind(CALL)` is a CALL inside a FN.

use vstd::prelude::*;
use crate::ir::{Graph, Node, kind_label};
use crate::parser::strings_v;
use crate::strmap::StrMap;
use crate::strs::{contains_s, contains_str, eq_ignore_ascii_case, eq_ignore_case, find_chars, find_s, has_prefix, has_suffix, slice_string, split_whitespace, starts_with, words};
use crate::text::{chars_of, string_from};

verus! {

#[derive(Debug, Clone, PartialEq)]
pub enum SelectorPart {
    Any,
    Kind(String),
    HasAttr(String),
    AttrEq(String, String),
    AttrContains(String, String),
}

pub enum PartV {
    Any,
    Kind(Seq<char>),
    HasAttr(Seq<char>),
    AttrEq(Seq<char>, Seq<char>),
    AttrContains(Seq<char>, Seq<char>),
}

impl View for SelectorPart {
    type V = PartV;

    open spec fn view(&self) -> PartV {
        match self {
            SelectorPart::Any => PartV::Any,
            SelectorPart::Kind(k) => PartV::Kind(k@),
            SelectorPart::HasAttr(a) => PartV::HasAttr(a@),
            SelectorPart::AttrEq(a, v) => PartV::AttrEq(a@, v@),
            SelectorPart::AttrContains(a, v) => PartV::AttrContains(a@, v@),
        }
    }
}

/// Whether one part matches one node.
pub open spec fn part_matches(p: PartV, n: Node) -> bool {
    let attrs = n.attrs.map();
    match p {
        PartV::Any => true,
        PartV::Kind(k) => eq_ignore_case(kind_label(n.kind), k),
        PartV::HasAttr(a) => attrs.dom().contains(a),
        PartV::AttrEq(a, v) => attrs.dom().contains(a) && attrs[a]@ == v,
        PartV::AttrContains(a, v) => attrs.dom().contains(a) && contains_s(attrs[a]@, v),
    }
}

impl SelectorPart {
    /// Total predicate: does this part match a single node?
    pub fn matches(&self, n: &Node) -> (b: bool)
        ensures
            b == part_matches(self@, *n),
    {
        match self {
            SelectorPart::Any => true,
            SelectorPart::Kind(k) => eq_ignore_ascii_case(n.kind.as_str(), k.as_str()),
            SelectorPart::HasAttr(a) => n.attrs.contains_key(a.as_str()),
            SelectorPart::AttrEq(a, v) => match n.attrs.get(a.as_str()) {
                Some(x) => crate::text::str_eq(x.as_str(), v.as_str()),
                None => false,
            },
            SelectorPart::AttrContains(a, v) => match n.attrs.get(a.as_str()) {
                Some(x) => contains_str(x.as_str(), v.as_str()),
                None => false,
            },
        }
    }
}

/// The part a single whitespace-free token denotes.
pub open spec fn parse_part_s(t: Seq<char>) -> PartV {
    if t == seq!['*'] {
        PartV::Any
    } else if has_prefix(t, seq!['k', 'i', 'n', 'd', '(']) && has_suffix(t.skip(5), seq![')']) {
        PartV::Kind(t.subrange(5, t.len() - 1))
    } else if has_prefix(t, seq!['[']) && has_suffix(t.skip(1), seq![']']) {
        let inner = t.subrange(1, t.len() - 1);
        match find_s(inner, seq!['~', '=']) {
            Some(i) => PartV::AttrContains(inner.take(i), inner.skip(i + 2)),
            None => match find_s(inner, seq!['=']) {
                Some(i) => PartV::AttrEq(inner.take(i), inner.skip(i + 1)),
                None => PartV::HasAttr(inner),
            },
        }
    } else {
        PartV::Kind(t)
    }
}

/// The chain a selector string parses to: one part per word, or `Any` for a blank string.
pub open spec fn parse_s(s: Seq<char>) -> Seq<PartV> {
    if words(s).len() == 0 {
        seq![PartV::Any]
    } else {
        words(s).map_values(|w: Seq<char>| parse_part_s(w))
    }
}

/// The weight of a part in a selector's specificity.
pub open spec fn part_weight(p: PartV) -> int {
    match p {
        PartV::AttrEq(_, _) => 3,
        PartV::Kind(_) => 2,
        PartV::AttrContains(_, _) => 2,
        PartV::HasAttr(_) => 1,
        PartV::Any => 0,
    }
}

pub open spec fn weight_sum(c: Seq<PartV>) -> int
    decreases c.len(),
{
    if c.len() == 0 {
        0
    } else {
        weight_sum(c.drop_last()) + part_weight(c.last())
    }
}

/// Specificity: the summed part weights plus one per part of the chain.
pub open spec fn specificity_s(c: Seq<PartV>) -> int {
    c.len() + weight_sum(c)
}

/// The longest chain whose specificity is computed without overflow.
pub const MAX_PARTS: usize = 1_000_000_000;

/// A containment chain: ancestor parts, then the target part (last).
#[derive(Debug, Clone, PartialEq)]
pub struct Selector {
    pub chain: Vec<SelectorPart>,
    pub raw: String,
}

pub open spec fn parts_v(c: Seq<SelectorPart>) -> Seq<PartV> {
    c.map_values(|p: SelectorPart| p@)
}

impl Selector {
    pub open spec fn chain_v(&self) -> Seq<PartV> {
        parts_v(self.chain@)
    }

    /// Parses a selector string. Total: unknown input yields a kind or `Any` part,
    /// never an error.
    pub fn parse(s: &str) -> (sel: Selector)
        ensures
            sel.chain_v() == parse_s(s@),
            sel.raw@ == s@,
            sel.chain@.len() > 0,
            sel.chain@.len() <= s@.len() + 1,
    {
        let ws = split_whitespace(s);
        proof {
            crate::strs::lemma_words_shape(s@);
        }
        let mut chain: Vec<SelectorPart> = Vec::new();
        let mut i: usize = 0;
        while i < ws.len()
            invariant
                i <= ws@.len(),
                ws@.len() == words(s@).len(),
                forall|k: int| 0 <= k < ws@.len() ==> #[trigger] ws@[k]@ == words(s@)[k],
                parts_v(chain@) == words(s@).take(i as int).map_values(
                    |w: Seq<char>| parse_part_s(w),
                ),
            decreases ws.len() - i,
        {
            let p = Self::parse_part(ws[i].as_str());
            let ghost before = chain@;
            chain.push(p);
            assert(parts_v(chain@) =~= parts_v(before).push(p@));
            assert(words(s@).take(i + 1).map_values(|w: Seq<char>| parse_part_s(w)) =~= words(
                s@,
            ).take(i as int).map_values(|w: Seq<char>| parse_part_s(w)).push(
                parse_part_s(words(s@)[i as int]),
            ));
            i = i + 1;
        }
        assert(words(s@).take(ws@.len() as int) =~= words(s@));
        if chain.len() == 0 {
            chain.push(SelectorPart::Any);
            assert(parts_v(chain@) =~= seq![PartV::Any]);
        }
        Selector { chain, raw: string_from(s) }
    }

    fn parse_part(tok: &str) -> (p: SelectorPart)
        ensures
            p@ == parse_part_s(tok@),
    {
        let kind_open: [char; 5] = ['k', 'i', 'n', 'd', '('];
        let open_bracket: [char; 1] = ['['];
        let tilde_eq: [char; 2] = ['~', '='];
        let eq_sign: [char; 1] = ['='];
        assert(kind_open@ =~= seq!['k', 'i', 'n', 'd', '(']);
        assert(open_bracket@ =~= seq!['[']);
        assert(tilde_eq@ =~= seq!['~', '=']);
        assert(eq_sign@ =~= seq!['=']);
        let cs = chars_of(tok);
        let t = cs.as_slice();
        let n = cs.len();
        if n == 1 && t[0] == '*' {
            assert(tok@ =~= seq!['*']);
            return SelectorPart::Any;
        }
        assert(n == 1 && t@[0] == '*' <== tok@ == seq!['*']);
        if starts_with(t, &kind_open) && n >= 6 && t[n - 1] == ')' {
            assert(has_suffix(tok@.skip(5), seq![')'])) by {
                assert(tok@.skip(5).skip(tok@.skip(5).len() - 1) =~= seq![tok@[n - 1]]);
            }
            return SelectorPart::Kind(slice_string(t, 5, n - 1));
        }
        assert(!(has_prefix(tok@, seq!['k', 'i', 'n', 'd', '(']) && has_suffix(
            tok@.skip(5),
            seq![')'],
        ))) by {
            if has_prefix(tok@, seq!['k', 'i', 'n', 'd', '(']) && has_suffix(
                tok@.skip(5),
                seq![')'],
            ) {
                assert(tok@.skip(5).skip(tok@.skip(5).len() - 1)[0] == tok@[n - 1]);
            }
        }
        if starts_with(t, &open_bracket) && n >= 2 && t[n - 1] == ']' {
            assert(has_suffix(tok@.skip(1), seq![']'])) by {
                assert(tok@.skip(1).skip(tok@.skip(1).len() - 1) =~= seq![tok@[n - 1]]);
            }
            let inner: Vec<char> = crate::text::chars_of(slice_string(t, 1, n - 1).as_str());
            let iv = inner.as_slice();
            assert(iv@ == tok@.subrange(1, n - 1));
            match find_chars(iv, &tilde_eq) {
                Some(i) => {
                    proof {
                        crate::strs::lemma_find_from(iv@, seq!['~', '='], 0);
                    }
                    return SelectorPart::AttrContains(
                        slice_string(iv, 0, i),
                        slice_string(iv, i + 2, inner.len()),
                    );
                },
                None => {},
            }
            match find_chars(iv, &eq_sign) {
                Some(i) => {
                    proof {
                        crate::strs::lemma_find_from(iv@, seq!['='], 0);
                    }
                    return SelectorPart::AttrEq(
                        slice_string(iv, 0, i),
                        slice_string(iv, i + 1, inner.len()),
                    );
                },
                None => {},
            }
            assert(iv@.subrange(0, iv@.len() as int) =~= iv@);
            return SelectorPart::HasAttr(slice_string(iv, 0, inner.len()));
        }
        assert(!(has_prefix(tok@, seq!['[']) && has_suffix(tok@.skip(1), seq![']']))) by {
            if has_prefix(tok@, seq!['[']) && has_suffix(tok@.skip(1), seq![']']) {
                assert(tok@.skip(1).skip(tok@.skip(1).len() - 1)[0] == tok@[n - 1]);
            }
        }
        SelectorPart::Kind(string_from(tok))
    }

    /// Specificity for cascade precedence: AttrEq 3, AttrContains 2, Kind 2, HasAttr 1,
    /// Any 0, summed, plus one per part of the chain.
    pub fn specificity(&self) -> (n: u32)
        requires
            self.chain@.len() <= MAX_PARTS,
        ensures
            n == specificity_s(self.chain_v()),
    {
        let mut s: u32 = self.chain.len() as u32;
        let mut i: usize = 0;
        while i < self.chain.len()
            invariant
                i <= self.chain@.len() <= MAX_PARTS,
                s == self.chain@.len() + weight_sum(self.chain_v().take(i as int)),
                weight_sum(self.chain_v().take(i as int)) <= 3 * i,
            decreases self.chain.len() - i,
        {
            assert(self.chain_v().take(i + 1).drop_last() =~= self.chain_v().take(i as int));
            let w: u32 = match &self.chain[i] {
                SelectorPart::AttrEq(_, _) => 3,
                SelectorPart::Kind(_) => 2,
                SelectorPart::AttrContains(_, _) => 2,
                SelectorPart::HasAttr(_) => 1,
                SelectorPart::Any => 0,
            };
            s = s + w;
            i = i + 1;
        }
        assert(self.chain_v().take(self.chain@.len() as int) =~= self.chain_v());
        s
    }
}


/// Whether node `p` lists the id `c` among its children.
pub open spec fn lists_child(p: Node, c: Seq<char>) -> bool {
    strings_v(p.children@).contains(c)
}

/// The wanted parts left after passing the ancestor `p`: it takes the next one if it
/// matches it.
pub open spec fn advance(rem: Seq<PartV>, p: Node) -> Seq<PartV> {
    if rem.len() > 0 && part_matches(rem[0], p) {
        rem.drop_first()
    } else {
        rem
    }
}

/// Whether the parts of `rem` can be met in order walking up from the node with id `cur`
/// through at most `fuel` parents. A parent of a node is any node of `nodes` that lists it
/// among its children; the walk may go up through any of them, and each node passed that
/// matches the next wanted part takes it.
pub open spec fn ancestors_ok(rem: Seq<PartV>, cur: Seq<char>, nodes: Seq<Node>, fuel: nat) -> bool
    decreases fuel,
{
    if rem.len() == 0 {
        true
    } else if fuel == 0 {
        false
    } else {
        exists|j: int|
            0 <= j < nodes.len() && #[trigger] lists_child(nodes[j], cur) && ancestors_ok(
                advance(rem, nodes[j]),
                nodes[j].id@,
                nodes,
                (fuel - 1) as nat,
            )
    }
}

/// `rank` ranks every node of `vs` that lists a child, and the child, with each child below
/// the node listing it: the child links have no cycle.
pub open spec fn ranks_parents(vs: Seq<Node>, rank: Map<Seq<char>, nat>) -> bool {
    forall|j: int, c: Seq<char>|
        0 <= j < vs.len() && #[trigger] lists_child(vs[j], c) ==> rank.dom().contains(c)
            && rank.dom().contains(vs[j].id@) && rank[c] < rank[vs[j].id@]
}

/// The positions of the nodes ranked above `r`.
spec fn ranked_above(vs: Seq<Node>, rank: Map<Seq<char>, nat>, r: nat) -> Set<int> {
    Set::new(
        |j: int| 0 <= j < vs.len() && rank.dom().contains(vs[j].id@) && rank[vs[j].id@] > r,
    )
}

proof fn lemma_ranked_above_len(vs: Seq<Node>, rank: Map<Seq<char>, nat>, r: nat)
    ensures
        ranked_above(vs, rank, r).finite(),
        ranked_above(vs, rank, r).len() <= vs.len(),
{
    vstd::set_lib::lemma_int_range(0, vs.len() as int);
    assert(ranked_above(vs, rank, r).subset_of(vstd::set_lib::set_int_range(0, vs.len() as int)));
    vstd::set_lib::lemma_len_subset(ranked_above(vs, rank, r), vstd::set_lib::set_int_range(0, vs.len() as int));
}

proof fn lemma_ranked_above_shrinks(vs: Seq<Node>, rank: Map<Seq<char>, nat>, r: nat, j0: int)
    requires
        0 <= j0 < vs.len(),
        rank.dom().contains(vs[j0].id@),
        rank[vs[j0].id@] > r,
    ensures
        ranked_above(vs, rank, rank[vs[j0].id@]).len() < ranked_above(vs, rank, r).len(),
{
    let hi = ranked_above(vs, rank, rank[vs[j0].id@]);
    let lo = ranked_above(vs, rank, r);
    lemma_ranked_above_len(vs, rank, r);
    assert(lo.contains(j0));
    assert(hi.subset_of(lo.remove(j0)));
    vstd::set_lib::lemma_len_subset(hi, lo.remove(j0));
}

proof fn lemma_fuel_mono(rem: Seq<PartV>, cur: Seq<char>, vs: Seq<Node>, a: nat, b: nat)
    requires
        a <= b,
        ancestors_ok(rem, cur, vs, a),
    ensures
        ancestors_ok(rem, cur, vs, b),
    decreases a,
{
    if rem.len() > 0 {
        let j = choose|j: int|
            0 <= j < vs.len() && #[trigger] lists_child(vs[j], cur) && ancestors_ok(
                advance(rem, vs[j]),
                vs[j].id@,
                vs,
                (a - 1) as nat,
            );
        lemma_fuel_mono(advance(rem, vs[j]), vs[j].id@, vs, (a - 1) as nat, (b - 1) as nat);
        assert(lists_child(vs[j], cur));
    }
}

proof fn lemma_walk_bound(rem: Seq<PartV>, cur: Seq<char>, vs: Seq<Node>, rank: Map<Seq<char>, nat>, f: nat)
    requires
        ranks_parents(vs, rank),
        rank.dom().contains(cur),
        ancestors_ok(rem, cur, vs, f),
    ensures
        ancestors_ok(rem, cur, vs, ranked_above(vs, rank, rank[cur]).len()),
    decreases f,
{
    if rem.len() > 0 {
        let j = choose|j: int|
            0 <= j < vs.len() && #[trigger] lists_child(vs[j], cur) && ancestors_ok(
                advance(rem, vs[j]),
                vs[j].id@,
                vs,
                (f - 1) as nat,
            );
        let pid = vs[j].id@;
        lemma_walk_bound(advance(rem, vs[j]), pid, vs, rank, (f - 1) as nat);
        lemma_ranked_above_shrinks(vs, rank, rank[cur], j);
        let k = ranked_above(vs, rank, rank[cur]).len();
        lemma_fuel_mono(
            advance(rem, vs[j]),
            pid,
            vs,
            ranked_above(vs, rank, rank[pid]).len(),
            (k - 1) as nat,
        );
        assert(lists_child(vs[j], cur));
    }
}

/// In a graph whose child links have no cycle, any walk up from a node that meets the wanted
/// parts, however long, is matched by one of at most as many links as the graph has nodes:
/// the bound in `node_selected` leaves out no containing chain.
pub proof fn law_walk_bound(rem: Seq<PartV>, cur: Seq<char>, vs: Seq<Node>, rank: Map<Seq<char>, nat>, f: nat)
    requires
        ranks_parents(vs, rank),
        ancestors_ok(rem, cur, vs, f),
    ensures
        ancestors_ok(rem, cur, vs, vs.len()),
{
    if rem.len() > 0 {
        let j = choose|j: int|
            0 <= j < vs.len() && #[trigger] lists_child(vs[j], cur) && ancestors_ok(
                advance(rem, vs[j]),
                vs[j].id@,
                vs,
                (f - 1) as nat,
            );
        assert(rank.dom().contains(cur));
        lemma_walk_bound(rem, cur, vs, rank, f);
        lemma_ranked_above_len(vs, rank, rank[cur]);
        lemma_fuel_mono(rem, cur, vs, ranked_above(vs, rank, rank[cur]).len(), vs.len());
    }
}

/// Whether node `n` of the graph is selected by `chain`: the target (last) part matches it,
/// and the ancestor parts, outermost first, are met in order along some chain of
/// containing nodes above it. The chains considered have at most as many links as the
/// graph has nodes, which in an acyclic graph is every chain.
pub open spec fn node_selected(chain: Seq<PartV>, n: Node, nodes: StrMap<Node>) -> bool {
    let target = if chain.len() == 0 {
        PartV::Any
    } else {
        chain.last()
    };
    let anc = if chain.len() == 0 {
        Seq::<PartV>::empty()
    } else {
        chain.drop_last()
    };
    part_matches(target, n) && ancestors_ok(
        anc.reverse(),
        n.id@,
        nodes.val_seq(),
        nodes.val_seq().len(),
    )
}

/// In a graph whose child links have no cycle, a node is selected as soon as the target part
/// matches it and some walk up from it, of any length, meets the ancestor parts in order.
pub proof fn law_selected_by_any_walk(
    chain: Seq<PartV>,
    n: Node,
    nodes: StrMap<Node>,
    rank: Map<Seq<char>, nat>,
    f: nat,
)
    requires
        chain.len() > 0,
        ranks_parents(nodes.val_seq(), rank),
        part_matches(chain.last(), n),
        ancestors_ok(chain.drop_last().reverse(), n.id@, nodes.val_seq(), f),
    ensures
        node_selected(chain, n, nodes),
{
    law_walk_bound(chain.drop_last().reverse(), n.id@, nodes.val_seq(), rank, f);
}

/// The nodes a selector picks out, in id order.
pub open spec fn selected(chain: Seq<PartV>, nodes: StrMap<Node>) -> Seq<Node> {
    nodes.val_seq().filter(|n: Node| node_selected(chain, n, nodes))
}

/// `m` gives, for each child id, exactly the positions in `vs` of the nodes that list it.
spec fn indexes_parents(m: Map<Seq<char>, Vec<usize>>, vs: Seq<Node>) -> bool {
    &&& forall|c: Seq<char>, j: int|
        0 <= j < vs.len() && #[trigger] lists_child(vs[j], c) ==> m.dom().contains(c)
            && m[c]@.contains(j as usize)
    &&& forall|c: Seq<char>, t: int|
        m.dom().contains(c) && 0 <= t < m[c]@.len() ==> #[trigger] m[c]@[t] < vs.len()
            && lists_child(vs[m[c]@[t] as int], c)
}

/// `l` with `i` added at the end.
fn pushed(l: &Vec<usize>, i: usize) -> (r: Vec<usize>)
    ensures
        r@ == l@.push(i),
{
    let mut r: Vec<usize> = Vec::new();
    let mut t: usize = 0;
    while t < l.len()
        invariant
            t <= l@.len(),
            r@ == l@.take(t as int),
        decreases l.len() - t,
    {
        r.push(l[t]);
        t = t + 1;
        assert(r@ =~= l@.take(t as int));
    }
    assert(l@.take(l@.len() as int) =~= l@);
    r.push(i);
    r
}

/// The parent index of a graph whose nodes, in id order, are `all`: each child id mapped to
/// the positions of the nodes that list it.
fn parent_index(g: &Graph, all: &Vec<&Node>) -> (m: StrMap<Vec<usize>>)
    requires
        all@.len() == g.nodes.val_seq().len(),
        forall|j: int| 0 <= j < all@.len() ==> *all@[j] == g.nodes.val_seq()[j],
    ensures
        indexes_parents(m.map(), g.nodes.val_seq()),
{
    let ghost vs = g.nodes.val_seq();
    let mut m: StrMap<Vec<usize>> = StrMap::new();
    let mut i: usize = 0;
    while i < all.len()
        invariant
            i <= all@.len(),
            all@.len() == vs.len(),
            vs == g.nodes.val_seq(),
            forall|j: int| 0 <= j < all@.len() ==> *all@[j] == vs[j],
            forall|c: Seq<char>, j: int|
                0 <= j < i && #[trigger] lists_child(vs[j], c) ==> m.map().dom().contains(c)
                    && m.map()[c]@.contains(j as usize),
            forall|c: Seq<char>, t: int|
                m.map().dom().contains(c) && 0 <= t < m.map()[c]@.len() ==> #[trigger] m.map()[c]@[t]
                    < i && lists_child(vs[m.map()[c]@[t] as int], c),
        decreases all.len() - i,
    {
        let n = all[i];
        let ghost ch = strings_v(n.children@);
        let mut t: usize = 0;
        while t < n.children.len()
            invariant
                i < all@.len(),
                all@.len() == vs.len(),
                *n == vs[i as int],
                ch == strings_v(n.children@),
                t <= n.children@.len(),
                forall|c: Seq<char>, j: int|
                    0 <= j < i && #[trigger] lists_child(vs[j], c) ==> m.map().dom().contains(c)
                        && m.map()[c]@.contains(j as usize),
                forall|s: int|
                    0 <= s < t ==> m.map().dom().contains(#[trigger] ch[s]) && m.map()[ch[s]]@.contains(
                        i,
                    ),
                forall|c: Seq<char>, u: int|
                    m.map().dom().contains(c) && 0 <= u < m.map()[c]@.len() ==> #[trigger] m.map()[c]@[u]
                        <= i && lists_child(vs[m.map()[c]@[u] as int], c),
            decreases n.children.len() - t,
        {
            let c = &n.children[t];
            assert(ch[t as int] == c@);
            assert(lists_child(vs[i as int], c@)) by {
                assert(strings_v(vs[i as int].children@)[t as int] == c@);
            }
            let ghost before = m.map();
            let list: Vec<usize> = match m.get(c.as_str()) {
                Some(l) => pushed(l, i),
                None => vec![i],
            };
            m.insert(c.clone(), list);
            proof {
                let after = m.map();
                assert forall|c2: Seq<char>, j: int|
                    0 <= j < i && #[trigger] lists_child(vs[j], c2) implies after.dom().contains(c2)
                        && after[c2]@.contains(j as usize) by {
                    assert(before.dom().contains(c2) && before[c2]@.contains(j as usize));
                    if c2 == c@ {
                        let s = choose|s: int| 0 <= s < before[c2]@.len() && before[c2]@[s] == j as usize;
                        assert(after[c2]@[s] == j as usize);
                    }
                }
                assert forall|s: int| 0 <= s < t + 1 implies after.dom().contains(#[trigger] ch[s])
                    && after[ch[s]]@.contains(i) by {
                    if ch[s] == c@ {
                        assert(after[ch[s]]@[after[ch[s]]@.len() - 1] == i);
                    } else {
                        let w = choose|w: int| 0 <= w < before[ch[s]]@.len() && before[ch[s]]@[w] == i;
                        assert(after[ch[s]]@[w] == i);
                    }
                }
                assert forall|c2: Seq<char>, u: int|
                    after.dom().contains(c2) && 0 <= u < after[c2]@.len() implies #[trigger] after[c2]@[u]
                        <= i && lists_child(vs[after[c2]@[u] as int], c2) by {
                    if c2 == c@ {
                        if before.dom().contains(c2) && u < before[c2]@.len() {
                            assert(after[c2]@[u] == before[c2]@[u]);
                        }
                    }
                }
            }
            t = t + 1;
        }
        proof {
            assert forall|c: Seq<char>, j: int|
                0 <= j < i + 1 && #[trigger] lists_child(vs[j], c) implies m.map().dom().contains(c)
                    && m.map()[c]@.contains(j as usize) by {
                if j == i {
                    let s = choose|s: int| 0 <= s < ch.len() && ch[s] == c;
                    assert(m.map().dom().contains(ch[s]));
                }
            }
        }
        i = i + 1;
    }
    m
}

/// Whether the first `k` parts of `chain`, right to left, can be met walking up from the
/// node with id `cur` through at most `fuel` parents.
fn search_up(
    chain: &Vec<SelectorPart>,
    k: usize,
    cur: &str,
    all: &Vec<&Node>,
    parents: &StrMap<Vec<usize>>,
    fuel: usize,
    g: &Graph,
) -> (b: bool)
    requires
        k <= chain@.len(),
        all@.len() == g.nodes.val_seq().len(),
        forall|j: int| 0 <= j < all@.len() ==> *all@[j] == g.nodes.val_seq()[j],
        indexes_parents(parents.map(), g.nodes.val_seq()),
    ensures
        b == ancestors_ok(parts_v(chain@).take(k as int).reverse(), cur@, g.nodes.val_seq(), fuel as nat),
    decreases fuel,
{
    let ghost vs = g.nodes.val_seq();
    let ghost rem = parts_v(chain@).take(k as int).reverse();
    if k == 0 {
        return true;
    }
    if fuel == 0 {
        return false;
    }
    assert(rem[0] == chain@[k - 1]@);
    assert(rem.drop_first() =~= parts_v(chain@).take(k - 1).reverse());
    match parents.get(cur) {
        None => {
            assert forall|j: int| 0 <= j < vs.len() implies !(#[trigger] lists_child(vs[j], cur@)) by {
                if lists_child(vs[j], cur@) {
                    assert(parents.map().dom().contains(cur@));
                }
            }
            false
        },
        Some(list) => {
            let mut t: usize = 0;
            while t < list.len()
                invariant
                    0 < k <= chain@.len(),
                    0 < fuel,
                    t <= list@.len(),
                    vs == g.nodes.val_seq(),
                    rem == parts_v(chain@).take(k as int).reverse(),
                    rem[0] == chain@[k - 1]@,
                    rem.drop_first() == parts_v(chain@).take(k - 1).reverse(),
                    parents.map().dom().contains(cur@),
                    parents.map()[cur@] == *list,
                    all@.len() == vs.len(),
                    forall|j: int| 0 <= j < all@.len() ==> *all@[j] == vs[j],
                    indexes_parents(parents.map(), vs),
                    forall|s: int|
                        0 <= s < t ==> !ancestors_ok(
                            advance(rem, vs[#[trigger] list@[s] as int]),
                            vs[list@[s] as int].id@,
                            vs,
                            (fuel - 1) as nat,
                        ),
                decreases list.len() - t,
            {
                let j = list[t];
                assert(j < vs.len() && lists_child(vs[j as int], cur@)) by {
                    assert(parents.map()[cur@]@[t as int] == j);
                }
                let p = all[j];
                let k2: usize = if chain[k - 1].matches(p) {
                    k - 1
                } else {
                    k
                };
                assert(advance(rem, vs[j as int]) == parts_v(chain@).take(k2 as int).reverse());
                if search_up(chain, k2, p.id.as_str(), all, parents, fuel - 1, g) {
                    assert(lists_child(vs[j as int], cur@));
                    return true;
                }
                t = t + 1;
            }
            assert forall|j: int| 0 <= j < vs.len() && #[trigger] lists_child(vs[j], cur@) implies !ancestors_ok(
                advance(rem, vs[j]),
                vs[j].id@,
                vs,
                (fuel - 1) as nat,
            ) by {
                assert(all@.len() == all.len());
                assert(j < all@.len() && (j as usize) as int == j);
                assert(list@.contains(j as usize));
                let s = choose|s: int| 0 <= s < list@.len() && list@[s] == j as usize;
                assert(list@[s] as int == j);
            }
            false
        },
    }
}

/// The nodes matching the selector's target part whose ancestors satisfy the rest of the
/// chain, in id order. Pure and total.
pub fn match_nodes<'a>(sel: &Selector, g: &'a Graph) -> (r: Vec<&'a Node>)
    ensures
        r@.map_values(|n: &Node| *n) == selected(sel.chain_v(), g.nodes),
{
    let n = sel.chain.len();
    let target = if n == 0 {
        SelectorPart::Any
    } else {
        match &sel.chain[n - 1] {
            SelectorPart::Any => SelectorPart::Any,
            SelectorPart::Kind(k) => SelectorPart::Kind(k.clone()),
            SelectorPart::HasAttr(a) => SelectorPart::HasAttr(a.clone()),
            SelectorPart::AttrEq(a, v) => SelectorPart::AttrEq(a.clone(), v.clone()),
            SelectorPart::AttrContains(a, v) => SelectorPart::AttrContains(a.clone(), v.clone()),
        }
    };
    let count: usize = if n == 0 {
        0
    } else {
        n - 1
    };
    let ghost chain = sel.chain_v();
    assert(count == 0 ==> chain.len() == 0 || chain.drop_last().len() == 0);
    assert(n > 0 ==> parts_v(sel.chain@).take(count as int) =~= chain.drop_last());
    assert(n == 0 ==> parts_v(sel.chain@).take(count as int) =~= Seq::<PartV>::empty());
    let all = g.nodes.values();
    let ghost vs = g.nodes.val_seq();
    let parent = parent_index(g, &all);
    let mut r: Vec<&Node> = Vec::new();
    let mut i: usize = 0;
    proof {
        reveal(Seq::filter);
    }
    assert(vs.take(0).filter(|x: Node| node_selected(chain, x, g.nodes)) =~= Seq::<Node>::empty());
    assert(r@.map_values(|x: &Node| *x) =~= Seq::<Node>::empty());
    while i < all.len()
        invariant
            i <= all@.len(),
            all@.len() == vs.len(),
            vs == g.nodes.val_seq(),
            chain == sel.chain_v(),
            n == sel.chain@.len(),
            count <= n,
            n > 0 ==> target@ == chain.last(),
            n == 0 ==> target@ == PartV::Any,
            parts_v(sel.chain@).take(count as int) == (if n == 0 {
                Seq::<PartV>::empty()
            } else {
                chain.drop_last()
            }),
            indexes_parents(parent.map(), vs),
            forall|j: int| 0 <= j < all@.len() ==> *all@[j] == vs[j],
            r@.map_values(|x: &Node| *x) == vs.take(i as int).filter(
                |x: Node| node_selected(chain, x, g.nodes),
            ),
        decreases all.len() - i,
    {
        proof {
            reveal(Seq::filter);
            assert(vs.take(i + 1).drop_last() =~= vs.take(i as int));
        }
        let node = all[i];
        let ok = target.matches(node) && search_up(&sel.chain, count, node.id.as_str(), &all, &parent, all.len(), g);
        assert(ok == node_selected(chain, *node, g.nodes));
        if ok {
            r.push(node);
        }
        i = i + 1;
        assert(r@.map_values(|x: &Node| *x) =~= vs.take(i as int).filter(
            |x: Node| node_selected(chain, x, g.nodes),
        ));
    }
    assert(vs.take(vs.len() as int) =~= vs);
    r
}


proof fn lemma_weight_sum_concat(a: Seq<PartV>, b: Seq<PartV>)
    ensures
        weight_sum(a + b) == weight_sum(a) + weight_sum(b),
    decreases b.len(),
{
    if b.len() > 0 {
        assert((a + b).drop_last() =~= a + b.drop_last());
        lemma_weight_sum_concat(a, b.drop_last());
    } else {
        assert(a + b =~= a);
    }
}

proof fn lemma_weight_sum_nonneg(a: Seq<PartV>)
    ensures
        weight_sum(a) >= 0,
    decreases a.len(),
{
    if a.len() > 0 {
        lemma_weight_sum_nonneg(a.drop_last());
    }
}

/// Specificity adds up over a chain: the specificity of ancestors followed by a chain is
/// the sum of the two, so putting ancestor parts in front of a chain makes it strictly more
/// specific.
pub proof fn law_specificity_additive(anc: Seq<PartV>, c: Seq<PartV>)
    ensures
        specificity_s(anc + c) == specificity_s(anc) + specificity_s(c),
        anc.len() > 0 ==> specificity_s(anc + c) > specificity_s(c),
{
    lemma_weight_sum_concat(anc, c);
    lemma_weight_sum_nonneg(anc);
}

/// Every node a selector picks out matches its target part, and the pick keeps id order
/// (it is the graph's node sequence with some nodes left out).
pub proof fn law_selected_match_target(chain: Seq<PartV>, nodes: StrMap<Node>)
    requires
        chain.len() > 0,
    ensures
        forall|i: int| 0 <= i < selected(chain, nodes).len() ==> part_matches(
            chain.last(),
            #[trigger] selected(chain, nodes)[i],
        ),
        selected(chain, nodes).len() <= nodes.val_seq().len(),
{
    broadcast use vstd::seq_lib::group_filter_ensures;
    let pred = |n: Node| node_selected(chain, n, nodes);
    assert forall|i: int| 0 <= i < selected(chain, nodes).len() implies part_matches(
        chain.last(),
        #[trigger] selected(chain, nodes)[i],
    ) by {
        assert(pred(nodes.val_seq().filter(pred)[i]));
    }
}

proof fn lemma_filter_all<A>(s: Seq<A>, pred: spec_fn(A) -> bool)
    requires
        forall|i: int| 0 <= i < s.len() ==> pred(#[trigger] s[i]),
    ensures
        s.filter(pred) == s,
    decreases s.len(),
{
    reveal(Seq::filter);
    if s.len() > 0 {
        lemma_filter_all(s.drop_last(), pred);
        assert(s.drop_last().push(s.last()) =~= s);
    }
}

/// The selector `*` picks out every node of the graph.
pub proof fn law_any_selects_all(nodes: StrMap<Node>)
    ensures
        selected(seq![PartV::Any], nodes) == nodes.val_seq(),
{
    let chain = seq![PartV::Any];
    assert(chain.drop_last() =~= Seq::<PartV>::empty());
    assert(chain.drop_last().reverse() =~= Seq::<PartV>::empty());
    lemma_filter_all(nodes.val_seq(), |n: Node| node_selected(chain, n, nodes));
}

} // verus!
