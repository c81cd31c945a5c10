//! The content-addressed IR: every node carries its kind, its children (by content
//! address), its attributes and its provenance. Identical content gets the same id,
//! so each distinct subterm is stored once.

use vstd::prelude::*;
use vstd::utf8::encode_utf8;
use crate::digest::{hex_digest, hex_sha256, push_utf8};
use crate::strmap::StrMap;
use crate::parser::strings_v;
use crate::text::{chars_of, push_char, string_from};
pub use crate::lower::lower;

verus! {

#[derive(Debug, Clone, Copy, PartialEq, Eq, Structural)]
pub enum NodeKind {
    Literal,
    Ref,
    Call,
    Fn,
    Match,
    Record,
    TableDef,
    Query,
    AiCall,
    Quote,
    Splice,
    Effect,
}

/// The upper-case name of a node kind.
pub open spec fn kind_label(k: NodeKind) -> Seq<char> {
    match k {
        NodeKind::Literal => "LITERAL"@,
        NodeKind::Ref => "REF"@,
        NodeKind::Call => "CALL"@,
        NodeKind::Fn => "FN"@,
        NodeKind::Match => "MATCH"@,
        NodeKind::Record => "RECORD"@,
        NodeKind::TableDef => "TABLE_DEF"@,
        NodeKind::Query => "QUERY"@,
        NodeKind::AiCall => "AI_CALL"@,
        NodeKind::Quote => "QUOTE"@,
        NodeKind::Splice => "SPLICE"@,
        NodeKind::Effect => "EFFECT"@,
    }
}

impl NodeKind {
    pub fn as_str(&self) -> (s: &'static str)
        ensures
            s@ == kind_label(*self),
    {
        match self {
            NodeKind::Literal => "LITERAL",
            NodeKind::Ref => "REF",
            NodeKind::Call => "CALL",
            NodeKind::Fn => "FN",
            NodeKind::Match => "MATCH",
            NodeKind::Record => "RECORD",
            NodeKind::TableDef => "TABLE_DEF",
            NodeKind::Query => "QUERY",
            NodeKind::AiCall => "AI_CALL",
            NodeKind::Quote => "QUOTE",
            NodeKind::Splice => "SPLICE",
            NodeKind::Effect => "EFFECT",
        }
    }
}

/// Who authored a node, under what authority, in which source language.
#[derive(Debug, Clone)]
pub struct Provenance {
    pub author_kind: String,
    pub author: String,
    pub authority_ref: String,
    pub source_lang: String,
}

pub struct ProvV {
    pub author_kind: Seq<char>,
    pub author: Seq<char>,
    pub authority_ref: Seq<char>,
    pub source_lang: Seq<char>,
}

impl View for Provenance {
    type V = ProvV;

    open spec fn view(&self) -> ProvV {
        ProvV {
            author_kind: self.author_kind@,
            author: self.author@,
            authority_ref: self.authority_ref@,
            source_lang: self.source_lang@,
        }
    }
}

/// The provenance of hand-written CodeIO source.
pub open spec fn default_prov() -> ProvV {
    ProvV {
        author_kind: "human"@,
        author: "developer"@,
        authority_ref: "docs/language.md"@,
        source_lang: "codeio"@,
    }
}

impl Provenance {
    pub fn duplicate(&self) -> (p: Provenance)
        ensures
            p@ == self@,
    {
        Provenance {
            author_kind: self.author_kind.clone(),
            author: self.author.clone(),
            authority_ref: self.authority_ref.clone(),
            source_lang: self.source_lang.clone(),
        }
    }
}

impl Default for Provenance {
    fn default() -> (p: Self)
        ensures
            p@ == default_prov(),
    {
        Provenance {
            author_kind: string_from("human"),
            author: string_from("developer"),
            authority_ref: string_from("docs/language.md"),
            source_lang: string_from("codeio"),
        }
    }
}

/// A node's attributes as (key, value) pairs in increasing key order.
pub open spec fn attrs_v(m: StrMap<String>) -> Seq<(Seq<char>, Seq<char>)> {
    Seq::new(m.key_seq().len(), |i: int| (m.key_seq()[i], m.val_seq()[i]@))
}

pub struct NodeV {
    pub id: Seq<char>,
    pub kind: NodeKind,
    pub children: Seq<Seq<char>>,
    pub attrs: Seq<(Seq<char>, Seq<char>)>,
    pub provenance: ProvV,
}

pub struct Node {
    pub id: String,
    pub kind: NodeKind,
    pub children: Vec<String>,
    pub attrs: StrMap<String>,
    pub provenance: Provenance,
}

impl View for Node {
    type V = NodeV;

    open spec fn view(&self) -> NodeV {
        NodeV {
            id: self.id@,
            kind: self.kind,
            children: strings_v(self.children@),
            attrs: attrs_v(self.attrs),
            provenance: self.provenance@,
        }
    }
}

/// The bytes `|child` for each child, in order.
pub open spec fn children_bytes(c: Seq<Seq<char>>) -> Seq<u8>
    decreases c.len(),
{
    if c.len() == 0 {
        Seq::empty()
    } else {
        children_bytes(c.drop_last()) + seq![124u8] + encode_utf8(c.last())
    }
}

/// The bytes `|key=value` for each attribute, in order.
pub open spec fn attrs_bytes(a: Seq<(Seq<char>, Seq<char>)>) -> Seq<u8>
    decreases a.len(),
{
    if a.len() == 0 {
        Seq::empty()
    } else {
        attrs_bytes(a.drop_last()) + seq![124u8] + encode_utf8(a.last().0) + seq![61u8]
            + encode_utf8(a.last().1)
    }
}

/// The canonical encoding of a node's content.
pub open spec fn node_bytes(
    kind: NodeKind,
    children: Seq<Seq<char>>,
    attrs: Seq<(Seq<char>, Seq<char>)>,
) -> Seq<u8> {
    encode_utf8(kind_label(kind)) + children_bytes(children) + attrs_bytes(attrs)
}

/// A node's content address: the first 16 hex digits of the digest of its encoding.
pub open spec fn node_id(
    kind: NodeKind,
    children: Seq<Seq<char>>,
    attrs: Seq<(Seq<char>, Seq<char>)>,
) -> Seq<char> {
    hex_digest(node_bytes(kind, children, attrs)).take(16)
}

/// The node map after interning a node: a new id gets the node, a known id keeps the old one.
pub open spec fn intern_s(
    g: Map<Seq<char>, NodeV>,
    kind: NodeKind,
    children: Seq<Seq<char>>,
    attrs: Seq<(Seq<char>, Seq<char>)>,
    p: ProvV,
) -> (Map<Seq<char>, NodeV>, Seq<char>) {
    let id = node_id(kind, children, attrs);
    if g.dom().contains(id) {
        (g, id)
    } else {
        (g.insert(id, NodeV { id, kind, children, attrs, provenance: p }), id)
    }
}

pub struct Graph {
    pub nodes: StrMap<Node>,
    pub roots: Vec<String>,
    pub meta: StrMap<String>,
}

impl Graph {
    /// The nodes by id.
    pub open spec fn nodes_v(&self) -> Map<Seq<char>, NodeV> {
        self.nodes.map().map_values(|n: Node| n@)
    }

    /// Every node is stored under its own id.
    pub open spec fn ids_match(&self) -> bool {
        forall|id: Seq<char>| #[trigger] self.nodes.map().dom().contains(id) ==> self.nodes.map()[id].id@ == id
    }

    pub fn new() -> (g: Graph)
        ensures
            g.nodes_v() == Map::<Seq<char>, NodeV>::empty(),
            g.nodes.map() == Map::<Seq<char>, Node>::empty(),
            g.roots@ == Seq::<String>::empty(),
            g.meta.map() == Map::<Seq<char>, String>::empty(),
    {
        let g = Graph { nodes: StrMap::new(), roots: Vec::new(), meta: StrMap::new() };
        assert(g.nodes_v() =~= Map::<Seq<char>, NodeV>::empty());
        g
    }

    pub fn len(&self) -> (n: usize)
        ensures
            n == self.nodes.map().dom().len(),
    {
        self.nodes.len()
    }

    pub fn is_empty(&self) -> (b: bool)
        ensures
            b == (self.nodes.map().dom().len() == 0),
    {
        self.nodes.len() == 0
    }

    pub fn get(&self, id: &str) -> (r: Option<&Node>)
        ensures
            match r {
                Some(n) => self.nodes.map().dom().contains(id@) && self.nodes.map()[id@] == *n,
                None => !self.nodes.map().dom().contains(id@),
            },
    {
        self.nodes.get(id)
    }

    /// The content address of a node with this kind, children and attributes.
    fn content_id(kind: NodeKind, children: &Vec<String>, attrs: &StrMap<String>) -> (id: String)
        ensures
            id@ == node_id(kind, strings_v(children@), attrs_v(*attrs)),
    {
        let mut bytes: Vec<u8> = Vec::new();
        push_utf8(&mut bytes, kind.as_str());
        let mut i: usize = 0;
        while i < children.len()
            invariant
                i <= children@.len(),
                bytes@ == encode_utf8(kind_label(kind)) + children_bytes(
                    strings_v(children@).subrange(0, i as int),
                ),
            decreases children.len() - i,
        {
            let ghost pre = strings_v(children@).subrange(0, i as int);
            assert(strings_v(children@).subrange(0, i + 1).drop_last() =~= pre);
            bytes.push(124u8);
            push_utf8(&mut bytes, children[i].as_str());
            i = i + 1;
            assert(bytes@ =~= encode_utf8(kind_label(kind)) + children_bytes(
                strings_v(children@).subrange(0, i as int),
            ));
        }
        assert(strings_v(children@).subrange(0, children@.len() as int) =~= strings_v(children@));
        let ghost head = bytes@;
        let n = attrs.len();
        proof {
            attrs.lemma_lengths();
        }
        let mut j: usize = 0;
        while j < n
            invariant
                j <= n,
                n == attrs.key_seq().len(),
                attrs.key_seq().len() == attrs.val_seq().len(),
                bytes@ == head + attrs_bytes(attrs_v(*attrs).subrange(0, j as int)),
            decreases n - j,
        {
            let ghost pre = attrs_v(*attrs).subrange(0, j as int);
            assert(attrs_v(*attrs).subrange(0, j + 1).drop_last() =~= pre);
            bytes.push(124u8);
            push_utf8(&mut bytes, attrs.key_at(j).as_str());
            bytes.push(61u8);
            push_utf8(&mut bytes, attrs.value_at(j).as_str());
            j = j + 1;
            assert(bytes@ =~= head + attrs_bytes(attrs_v(*attrs).subrange(0, j as int)));
        }
        assert(attrs_v(*attrs).subrange(0, n as int) =~= attrs_v(*attrs));
        let digest = hex_sha256(bytes.as_slice());
        let dc = chars_of(digest.as_str());
        let mut id = String::new();
        let mut k: usize = 0;
        while k < 16
            invariant
                k <= 16,
                dc@.len() == 64,
                dc@ == hex_digest(node_bytes(kind, strings_v(children@), attrs_v(*attrs))),
                id@ == dc@.take(k as int),
            decreases 16 - k,
        {
            assert(dc@.take(k + 1) =~= dc@.take(k as int).push(dc@[k as int]));
            push_char(&mut id, dc[k]);
            k = k + 1;
        }
        id
    }

    /// Inserts a node, computing its content address; identical content gets the same id
    /// and is stored once.
    pub fn intern(
        &mut self,
        kind: NodeKind,
        children: Vec<String>,
        attrs: StrMap<String>,
        prov: Provenance,
    ) -> (id: String)
        requires
            old(self).ids_match(),
        ensures
            final(self).ids_match(),
            (final(self).nodes_v(), id@) == intern_s(
                old(self).nodes_v(),
                kind,
                strings_v(children@),
                attrs_v(attrs),
                prov@,
            ),
            final(self).roots == old(self).roots,
            final(self).meta == old(self).meta,
    {
        let id = Self::content_id(kind, &children, &attrs);
        if !self.nodes.contains_key(id.as_str()) {
            let node = Node { id: id.clone(), kind, children, attrs, provenance: prov };
            let ghost nv = node@;
            self.nodes.insert(id.clone(), node);
            assert(self.nodes_v() =~= old(self).nodes_v().insert(id@, nv));
        }
        id
    }
}


/// Distinct kinds have distinct labels.
pub proof fn lemma_kind_label_injective(a: NodeKind, b: NodeKind)
    ensures
        kind_label(a) == kind_label(b) ==> a == b,
{
    reveal_strlit("LITERAL");
    reveal_strlit("REF");
    reveal_strlit("CALL");
    reveal_strlit("FN");
    reveal_strlit("MATCH");
    reveal_strlit("RECORD");
    reveal_strlit("TABLE_DEF");
    reveal_strlit("QUERY");
    reveal_strlit("AI_CALL");
    reveal_strlit("QUOTE");
    reveal_strlit("SPLICE");
    reveal_strlit("EFFECT");
    if kind_label(a) == kind_label(b) && a != b {
        let la = kind_label(a);
        let lb = kind_label(b);
        assert(la.len() == lb.len());
        assert(la[0] == lb[0]);
        assert(la[1] == lb[1]);
        assert(la[2] == lb[2]);
    }
}

/// The nodes of kind `k`, in id order.
pub open spec fn nodes_of_kind(nodes: Seq<Node>, k: NodeKind) -> Seq<Node> {
    nodes.filter(|n: Node| n.kind == k)
}

impl Graph {
    /// All nodes of the given kind, in id order.
    pub fn by_kind(&self, kind: &NodeKind) -> (r: Vec<&Node>)
        ensures
            r@.map_values(|n: &Node| *n) == nodes_of_kind(self.nodes.val_seq(), *kind),
    {
        let all = self.nodes.values();
        let ghost vs = self.nodes.val_seq();
        let mut r: Vec<&Node> = Vec::new();
        let mut i: usize = 0;
        proof {
            reveal(Seq::filter);
        }
        assert(vs.subrange(0, 0).filter(|n: Node| n.kind == *kind) =~= Seq::<Node>::empty());
        assert(r@.map_values(|n: &Node| *n) =~= Seq::<Node>::empty());
        while i < all.len()
            invariant
                i <= all@.len(),
                all@.len() == vs.len(),
                forall|j: int| 0 <= j < all@.len() ==> *all@[j] == vs[j],
                r@.map_values(|n: &Node| *n) == vs.subrange(0, i as int).filter(
                    |n: Node| n.kind == *kind,
                ),
            decreases all.len() - i,
        {
            proof {
                reveal(Seq::filter);
                assert(vs.subrange(0, i + 1).drop_last() =~= vs.subrange(0, i as int));
            }
            let n = all[i];
            if n.kind == *kind {
                r.push(n);
            }
            i = i + 1;
            assert(r@.map_values(|n: &Node| *n) =~= vs.subrange(0, i as int).filter(
                |n: Node| n.kind == *kind,
            ));
        }
        assert(vs.subrange(0, vs.len() as int) =~= vs);
        r
    }

    /// The number of nodes of each kind, keyed by the kind's label; kinds without nodes
    /// are absent.
    pub fn kind_histogram(&self) -> (h: StrMap<usize>)
        ensures
            forall|k: NodeKind| #[trigger]
                h.map().dom().contains(kind_label(k)) == (nodes_of_kind(self.nodes.val_seq(), k).len()
                    > 0),
            forall|k: NodeKind| #[trigger]
                h.map().dom().contains(kind_label(k)) ==> h.map()[kind_label(k)] as int
                    == nodes_of_kind(self.nodes.val_seq(), k).len(),
            forall|key: Seq<char>| #[trigger]
                h.map().dom().contains(key) ==> exists|k: NodeKind| kind_label(k) == key,
            hist_total(h.val_seq()) == self.nodes.val_seq().len(),
    {
        let all = self.nodes.values();
        let ghost vs = self.nodes.val_seq();
        let mut h: StrMap<usize> = StrMap::new();
        let mut i: usize = 0;
        proof {
            reveal(Seq::filter);
        }
        while i < all.len()
            invariant
                i <= all@.len(),
                all@.len() == vs.len(),
                forall|j: int| 0 <= j < all@.len() ==> *all@[j] == vs[j],
                forall|k: NodeKind| #[trigger]
                    h.map().dom().contains(kind_label(k)) == (nodes_of_kind(
                        vs.subrange(0, i as int),
                        k,
                    ).len() > 0),
                forall|k: NodeKind| #[trigger]
                    h.map().dom().contains(kind_label(k)) ==> h.map()[kind_label(k)] as int
                        == nodes_of_kind(vs.subrange(0, i as int), k).len(),
                forall|key: Seq<char>| #[trigger]
                    h.map().dom().contains(key) ==> exists|k: NodeKind| kind_label(k) == key,
            decreases all.len() - i,
        {
            let n = all[i];
            let ghost nk = n.kind;
            proof {
                reveal(Seq::filter);
                assert forall|k: NodeKind| #[trigger]
                    nodes_of_kind(vs.subrange(0, i + 1), k) == if k == nk {
                        nodes_of_kind(vs.subrange(0, i as int), k).push(vs[i as int])
                    } else {
                        nodes_of_kind(vs.subrange(0, i as int), k)
                    } by {
                    assert(vs.subrange(0, i + 1).drop_last() =~= vs.subrange(0, i as int));
                }
                assert forall|k: NodeKind| #[trigger]
                    nodes_of_kind(vs.subrange(0, i as int), k).len() <= i by {
                    vs.subrange(0, i as int).lemma_filter_len(|n: Node| n.kind == k);
                }
            }
            let label = n.kind.as_str();
            let cur: usize = match h.get(label) {
                Some(c) => *c,
                None => 0,
            };
            h.insert(string_from(label), cur + 1);
            proof {
                assert forall|k: NodeKind| #[trigger]
                    h.map().dom().contains(kind_label(k)) == (nodes_of_kind(
                        vs.subrange(0, i + 1),
                        k,
                    ).len() > 0) by {
                    lemma_kind_label_injective(k, nk);
                }
                assert forall|k: NodeKind| #[trigger]
                    h.map().dom().contains(kind_label(k)) implies h.map()[kind_label(k)] as int
                        == nodes_of_kind(vs.subrange(0, i + 1), k).len() by {
                    lemma_kind_label_injective(k, nk);
                }
            }
            i = i + 1;
        }
        assert(vs.subrange(0, vs.len() as int) =~= vs);
        let _ = h.len();
        proof {
            let ks = h.key_seq();
            let cs = h.val_seq();
            assert forall|j: int| 0 <= j < ks.len() implies cs[j] as int == #[trigger] with_label(vs, ks[j]).len() by {
                h.lemma_key_value(j);
                let k = choose|k: NodeKind| kind_label(k) == ks[j];
                lemma_with_label_is_kind(vs, k);
            }
            lemma_hist_total(vs, ks, cs);
            assert forall|a: int, b: int| 0 <= a < b < ks.len() implies ks[a] != ks[b] by {
                crate::strmap::lemma_lex_irrefl(ks[a]);
            }
            assert forall|i: int| 0 <= i < vs.len() implies ks.contains(kind_label(#[trigger] vs[i].kind)) by {
                broadcast use vstd::seq_lib::group_filter_ensures;
                let k = vs[i].kind;
                vs.filter_lemma(|n: Node| n.kind == k);
                assert(nodes_of_kind(vs, k).contains(vs[i]));
                assert(nodes_of_kind(vs, k).len() > 0);
                assert(h.map().dom().contains(kind_label(k)));
            }
            law_labels_partition(vs, ks);
        }
        h
    }
}

/// The counts of a histogram, added up.
pub open spec fn hist_total(cs: Seq<usize>) -> int
    decreases cs.len(),
{
    if cs.len() == 0 {
        0
    } else {
        hist_total(cs.drop_last()) + cs.last()
    }
}

/// The nodes whose kind has the label `l`.
pub open spec fn with_label(nodes: Seq<Node>, l: Seq<char>) -> Seq<Node> {
    nodes.filter(|n: Node| kind_label(n.kind) == l)
}

/// The number of nodes with each of the labels `ls`, added up.
pub open spec fn label_count_sum(nodes: Seq<Node>, ls: Seq<Seq<char>>) -> int
    decreases ls.len(),
{
    if ls.len() == 0 {
        0
    } else {
        label_count_sum(nodes, ls.drop_last()) + with_label(nodes, ls.last()).len()
    }
}

proof fn lemma_with_label_is_kind(nodes: Seq<Node>, k: NodeKind)
    ensures
        with_label(nodes, kind_label(k)) == nodes_of_kind(nodes, k),
{
    assert forall|n: Node| (kind_label(n.kind) == kind_label(k)) == (n.kind == k) by {
        lemma_kind_label_injective(n.kind, k);
    }
    assert((|n: Node| kind_label(n.kind) == kind_label(k)) =~= (|n: Node| n.kind == k));
}

proof fn lemma_hist_total(nodes: Seq<Node>, ls: Seq<Seq<char>>, cs: Seq<usize>)
    requires
        cs.len() == ls.len(),
        forall|j: int| 0 <= j < ls.len() ==> cs[j] as int == #[trigger] with_label(nodes, ls[j]).len(),
    ensures
        hist_total(cs) == label_count_sum(nodes, ls),
    decreases ls.len(),
{
    if ls.len() > 0 {
        let p = ls.drop_last();
        assert forall|j: int| 0 <= j < p.len() implies cs.drop_last()[j] as int == #[trigger] with_label(
            nodes,
            p[j],
        ).len() by {
            assert(p[j] == ls[j]);
        }
        lemma_hist_total(nodes, p, cs.drop_last());
        assert(with_label(nodes, ls[ls.len() - 1]).len() == cs[cs.len() - 1]);
    }
}

/// How many times `l` occurs in `ls`.
spec fn label_occurrences(ls: Seq<Seq<char>>, l: Seq<char>) -> int
    decreases ls.len(),
{
    if ls.len() == 0 {
        0
    } else {
        label_occurrences(ls.drop_last(), l) + if ls.last() == l {
            1int
        } else {
            0int
        }
    }
}

proof fn lemma_label_sum_step(nodes: Seq<Node>, ls: Seq<Seq<char>>)
    requires
        nodes.len() > 0,
    ensures
        label_count_sum(nodes, ls) == label_count_sum(nodes.drop_last(), ls) + label_occurrences(
            ls,
            kind_label(nodes.last().kind),
        ),
    decreases ls.len(),
{
    reveal(Seq::filter);
    if ls.len() > 0 {
        lemma_label_sum_step(nodes, ls.drop_last());
    }
}

proof fn lemma_label_occurs(ls: Seq<Seq<char>>, l: Seq<char>)
    requires
        forall|a: int, b: int| 0 <= a < b < ls.len() ==> ls[a] != ls[b],
    ensures
        label_occurrences(ls, l) == if ls.contains(l) {
            1int
        } else {
            0int
        },
    decreases ls.len(),
{
    if ls.len() > 0 {
        let p = ls.drop_last();
        lemma_label_occurs(p, l);
        if p.contains(l) {
            let k = choose|k: int| 0 <= k < p.len() && p[k] == l;
            assert(ls[k] == l);
            assert(ls[k] != ls[ls.len() - 1]);
        }
        if ls.contains(l) && ls.last() != l {
            let k = choose|k: int| 0 <= k < ls.len() && ls[k] == l;
            assert(p[k] == l);
        }
        if ls.last() == l {
            assert(ls[ls.len() - 1] == l);
        }
    }
}

proof fn lemma_label_sum_empty(ls: Seq<Seq<char>>)
    ensures
        label_count_sum(Seq::<Node>::empty(), ls) == 0,
    decreases ls.len(),
{
    reveal(Seq::filter);
    if ls.len() > 0 {
        lemma_label_sum_empty(ls.drop_last());
        assert(with_label(Seq::<Node>::empty(), ls.last()) =~= Seq::<Node>::empty());
    }
}

/// Counting nodes label by label, over labels listed once each and covering every node's
/// kind, accounts for each node exactly once: the counts of `kind_histogram` add up to the
/// number of nodes.
pub proof fn law_labels_partition(nodes: Seq<Node>, ls: Seq<Seq<char>>)
    requires
        forall|a: int, b: int| 0 <= a < b < ls.len() ==> ls[a] != ls[b],
        forall|i: int| 0 <= i < nodes.len() ==> ls.contains(kind_label(#[trigger] nodes[i].kind)),
    ensures
        label_count_sum(nodes, ls) == nodes.len(),
    decreases nodes.len(),
{
    if nodes.len() == 0 {
        lemma_label_sum_empty(ls);
        assert(nodes =~= Seq::<Node>::empty());
    } else {
        let p = nodes.drop_last();
        assert forall|i: int| 0 <= i < p.len() implies ls.contains(kind_label(#[trigger] p[i].kind)) by {
            assert(p[i] == nodes[i]);
        }
        law_labels_partition(p, ls);
        lemma_label_sum_step(nodes, ls);
        assert(ls.contains(kind_label(nodes[nodes.len() - 1].kind)));
        lemma_label_occurs(ls, kind_label(nodes.last().kind));
    }
}

/// Every node kind, once each.
pub open spec fn all_kinds() -> Seq<NodeKind> {
    seq![
        NodeKind::Literal,
        NodeKind::Ref,
        NodeKind::Call,
        NodeKind::Fn,
        NodeKind::Match,
        NodeKind::Record,
        NodeKind::TableDef,
        NodeKind::Query,
        NodeKind::AiCall,
        NodeKind::Quote,
        NodeKind::Splice,
        NodeKind::Effect,
    ]
}

/// The number of nodes of each of the kinds `ks`, added up.
pub open spec fn kind_count_sum(nodes: Seq<Node>, ks: Seq<NodeKind>) -> int
    decreases ks.len(),
{
    if ks.len() == 0 {
        0
    } else {
        kind_count_sum(nodes, ks.drop_last()) + nodes_of_kind(nodes, ks.last()).len()
    }
}

/// How many times `k` occurs in `ks`.
spec fn occurrences(ks: Seq<NodeKind>, k: NodeKind) -> int
    decreases ks.len(),
{
    if ks.len() == 0 {
        0
    } else {
        occurrences(ks.drop_last(), k) + if ks.last() == k {
            1int
        } else {
            0int
        }
    }
}

proof fn lemma_count_sum_step(nodes: Seq<Node>, ks: Seq<NodeKind>)
    requires
        nodes.len() > 0,
    ensures
        kind_count_sum(nodes, ks) == kind_count_sum(nodes.drop_last(), ks) + occurrences(
            ks,
            nodes.last().kind,
        ),
    decreases ks.len(),
{
    reveal(Seq::filter);
    if ks.len() > 0 {
        lemma_count_sum_step(nodes, ks.drop_last());
    }
}

/// The nodes of the twelve kinds add up to all the nodes: the sizes of `by_kind` over every
/// kind, like the counts of `kind_histogram`, sum to the number of nodes.
pub proof fn law_kinds_partition(nodes: Seq<Node>)
    ensures
        kind_count_sum(nodes, all_kinds()) == nodes.len(),
    decreases nodes.len(),
{
    if nodes.len() == 0 {
        reveal_with_fuel(kind_count_sum, 13);
        reveal(Seq::filter);
    } else {
        law_kinds_partition(nodes.drop_last());
        lemma_count_sum_step(nodes, all_kinds());
        reveal_with_fuel(occurrences, 13);
        assert(occurrences(all_kinds(), nodes.last().kind) == 1);
    }
}

} // verus!
