//! The routing index: a bidirectional map between IR nodes and code locations, with a
//! replayable trace of every routing decision. IR-to-code and code-to-IR both read it.

use vstd::prelude::*;
use crate::ir::{Graph, kind_label};
use crate::parser::strings_v;
use crate::router::{Router, RoutingRule, best_rule, rules_sized};
use crate::strmap::{StrMap, lemma_lex_irrefl, lex_lt, sorted_keys};
use crate::text::string_from;

verus! {

/// One replayable routing decision: which rule sent which node to which destination.
#[derive(Debug, Clone)]
pub struct TraceStep {
    pub node_id: String,
    pub node_kind: String,
    pub selector: String,
    pub rule_index: usize,
    pub stack: String,
    pub bucket: String,
}

pub struct TraceStepV {
    pub node_id: Seq<char>,
    pub node_kind: Seq<char>,
    pub selector: Seq<char>,
    pub rule_index: int,
    pub stack: Seq<char>,
    pub bucket: Seq<char>,
}

impl View for TraceStep {
    type V = TraceStepV;

    open spec fn view(&self) -> TraceStepV {
        TraceStepV {
            node_id: self.node_id@,
            node_kind: self.node_kind@,
            selector: self.selector@,
            rule_index: self.rule_index as int,
            stack: self.stack@,
            bucket: self.bucket@,
        }
    }
}

/// Where node `id` is routed: the winning rule's stack and bucket.
pub open spec fn route_of(rules: Seq<RoutingRule>, g: Graph, id: Seq<char>) -> Option<
    (Seq<char>, Seq<char>),
> {
    match best_rule(rules, g, id) {
        Some(k) => Some((rules[k].route.stack@, rules[k].route.bucket@)),
        None => None,
    }
}

/// The ids in `ids` that some rule routes.
pub open spec fn routed_in(rules: Seq<RoutingRule>, g: Graph, ids: Seq<Seq<char>>) -> Seq<Seq<char>> {
    ids.filter(|id: Seq<char>| best_rule(rules, g, id) is Some)
}

/// The ids in `ids` that no rule routes.
pub open spec fn unrouted_in(rules: Seq<RoutingRule>, g: Graph, ids: Seq<Seq<char>>) -> Seq<Seq<char>> {
    ids.filter(|id: Seq<char>| best_rule(rules, g, id) is None)
}

/// The ids in `ids` routed to `(stack, bucket)`.
pub open spec fn routed_to_in(
    rules: Seq<RoutingRule>,
    g: Graph,
    ids: Seq<Seq<char>>,
    stack: Seq<char>,
    bucket: Seq<char>,
) -> Seq<Seq<char>> {
    ids.filter(|id: Seq<char>| route_of(rules, g, id) == Some((stack, bucket)))
}

/// The ids of the graph's nodes that some rule routes, in id order.
pub open spec fn routed_ids(rules: Seq<RoutingRule>, g: Graph) -> Seq<Seq<char>> {
    routed_in(rules, g, g.nodes.key_seq())
}

/// The ids of the graph's nodes that no rule routes, in id order.
pub open spec fn unrouted_ids(rules: Seq<RoutingRule>, g: Graph) -> Seq<Seq<char>> {
    unrouted_in(rules, g, g.nodes.key_seq())
}

/// The ids routed to `(stack, bucket)`, in id order.
pub open spec fn ids_routed_to(
    rules: Seq<RoutingRule>,
    g: Graph,
    stack: Seq<char>,
    bucket: Seq<char>,
) -> Seq<Seq<char>> {
    routed_to_in(rules, g, g.nodes.key_seq(), stack, bucket)
}

/// The locations of routed ids.
pub open spec fn locations_of(rules: Seq<RoutingRule>, g: Graph, ids: Seq<Seq<char>>) -> Seq<
    (Seq<char>, Seq<char>),
> {
    ids.map_values(|id: Seq<char>| route_of(rules, g, id)->0)
}

/// The trace steps of routed ids.
pub open spec fn steps_of(rules: Seq<RoutingRule>, g: Graph, ids: Seq<Seq<char>>) -> Seq<TraceStepV> {
    ids.map_values(|id: Seq<char>| step_for(rules, g, id))
}

proof fn lemma_index_step(rules: Seq<RoutingRule>, g: Graph, ks: Seq<Seq<char>>, i: int)
    requires
        0 <= i < ks.len(),
    ensures
        routed_in(rules, g, ks.take(i + 1)) == if best_rule(rules, g, ks[i]) is Some {
            routed_in(rules, g, ks.take(i)).push(ks[i])
        } else {
            routed_in(rules, g, ks.take(i))
        },
        unrouted_in(rules, g, ks.take(i + 1)) == if best_rule(rules, g, ks[i]) is None {
            unrouted_in(rules, g, ks.take(i)).push(ks[i])
        } else {
            unrouted_in(rules, g, ks.take(i))
        },
        forall|st: Seq<char>, b: Seq<char>| #[trigger]
            routed_to_in(rules, g, ks.take(i + 1), st, b) == if route_of(rules, g, ks[i]) == Some(
                (st, b),
            ) {
                routed_to_in(rules, g, ks.take(i), st, b).push(ks[i])
            } else {
                routed_to_in(rules, g, ks.take(i), st, b)
            },
{
    reveal(Seq::filter);
    assert(ks.take(i + 1).drop_last() =~= ks.take(i));
}

/// The trace step recorded for a routed node.
pub open spec fn step_for(rules: Seq<RoutingRule>, g: Graph, id: Seq<char>) -> TraceStepV {
    let k = best_rule(rules, g, id)->0;
    TraceStepV {
        node_id: id,
        node_kind: kind_label(g.nodes.map()[id].kind),
        selector: rules[k].selector.raw@,
        rule_index: k,
        stack: rules[k].route.stack@,
        bucket: rules[k].route.bucket@,
    }
}

/// The locations in `ls` on stack `s`.
pub open spec fn at_stack(ls: Seq<(Seq<char>, Seq<char>)>, s: Seq<char>) -> Seq<(Seq<char>, Seq<char>)> {
    ls.filter(|l: (Seq<char>, Seq<char>)| l.0 == s)
}

pub open spec fn pair_v(p: (String, String)) -> (Seq<char>, Seq<char>) {
    (p.0@, p.1@)
}

/// The bidirectional routing index over a graph.
pub struct RouteIndex {
    forward: StrMap<(String, String)>,
    reverse: StrMap<StrMap<Vec<String>>>,
    pub trace: Vec<TraceStep>,
    pub unrouted: Vec<String>,
}

impl RouteIndex {
    /// The routed node ids, in id order.
    pub closed spec fn routed(&self) -> Seq<Seq<char>> {
        self.forward.key_seq()
    }

    /// The location of each routed node, in the order of `routed`.
    pub closed spec fn location_seq(&self) -> Seq<(Seq<char>, Seq<char>)> {
        self.forward.val_seq().map_values(|p: (String, String)| pair_v(p))
    }

    /// The trace, as values.
    pub closed spec fn steps(&self) -> Seq<TraceStepV> {
        self.trace@.map_values(|t: TraceStep| t@)
    }

    /// The ids no rule routed, in id order.
    pub closed spec fn unrouted_v(&self) -> Seq<Seq<char>> {
        strings_v(self.unrouted@)
    }

    /// The ids recorded at `(stack, bucket)`, in id order.
    pub closed spec fn ids_at(&self, stack: Seq<char>, bucket: Seq<char>) -> Seq<Seq<char>> {
        if self.reverse.map().dom().contains(stack) && self.reverse.map()[stack].map().dom().contains(
            bucket,
        ) {
            strings_v(self.reverse.map()[stack].map()[bucket]@)
        } else {
            Seq::empty()
        }
    }


    fn empty() -> (idx: RouteIndex)
        ensures
            idx.routed() == Seq::<Seq<char>>::empty(),
            idx.location_seq() == Seq::<(Seq<char>, Seq<char>)>::empty(),
            forall|s: Seq<char>, b: Seq<char>| #[trigger] idx.ids_at(s, b) == Seq::<Seq<char>>::empty(),
            idx.steps() == Seq::<TraceStepV>::empty(),
            idx.unrouted_v() == Seq::<Seq<char>>::empty(),
    {
        let idx = RouteIndex {
            forward: StrMap::new(),
            reverse: StrMap::new(),
            trace: Vec::new(),
            unrouted: Vec::new(),
        };
        assert(idx.location_seq() =~= Seq::<(Seq<char>, Seq<char>)>::empty());
        assert(idx.steps() =~= Seq::<TraceStepV>::empty());
        assert(idx.unrouted_v() =~= Seq::<Seq<char>>::empty());
        idx
    }

    /// Records `id` at `(stack, bucket)` in the reverse index.
    fn record_reverse(&mut self, stack: &String, bucket: &String, id: String)
        ensures
            final(self).forward == old(self).forward,
            final(self).trace == old(self).trace,
            final(self).unrouted == old(self).unrouted,
            forall|s: Seq<char>, b: Seq<char>| #[trigger]
                final(self).ids_at(s, b) == if s == stack@ && b == bucket@ {
                    old(self).ids_at(s, b).push(id@)
                } else {
                    old(self).ids_at(s, b)
                },
    {
        let mut inner = match self.reverse.remove(stack.as_str()) {
            Some(m) => m,
            None => StrMap::new(),
        };
        let mut list = match inner.remove(bucket.as_str()) {
            Some(v) => v,
            None => Vec::new(),
        };
        let ghost old_list = list@;
        list.push(id);
        proof {
            assert(strings_v(list@) =~= strings_v(old_list).push(id@));
            if !old(self).reverse.map().dom().contains(stack@) || !old(self).reverse.map()[stack@].map().dom().contains(bucket@) {
                assert(strings_v(old_list) =~= Seq::<Seq<char>>::empty());
            }
        }
        inner.insert(bucket.clone(), list);
        self.reverse.insert(stack.clone(), inner);
    }

    /// Builds the index by routing every node of the graph, in id order.
    pub fn build(router: &Router, g: &Graph) -> (idx: RouteIndex)
        requires
            rules_sized(router.rules@),
        ensures
            idx.routed() == routed_ids(router.rules@, *g),
            idx.location_seq() == locations_of(router.rules@, *g, routed_ids(router.rules@, *g)),
            idx.steps() == steps_of(router.rules@, *g, routed_ids(router.rules@, *g)),
            idx.unrouted_v() == unrouted_ids(router.rules@, *g),
            forall|s: Seq<char>, b: Seq<char>| #[trigger]
                idx.ids_at(s, b) == ids_routed_to(router.rules@, *g, s, b),
    {
        let ghost rules = router.rules@;
        let ghost ks = g.nodes.key_seq();
        let n = g.nodes.len();
        let mut idx = RouteIndex::empty();
        let mut i: usize = 0;
        proof {
            reveal(Seq::filter);
            assert(ks.take(0) =~= Seq::<Seq<char>>::empty());
        }
        while i < n
            invariant
                i <= n == ks.len(),
                ks == g.nodes.key_seq(),
                rules == router.rules@,
                rules_sized(rules),
                sorted_keys(ks),
                idx.routed() == routed_in(rules, *g, ks.take(i as int)),
                idx.location_seq() == locations_of(rules, *g, routed_in(rules, *g, ks.take(i as int))),
                idx.steps() == steps_of(rules, *g, routed_in(rules, *g, ks.take(i as int))),
                idx.unrouted_v() == unrouted_in(rules, *g, ks.take(i as int)),
                forall|st: Seq<char>, b: Seq<char>| #[trigger]
                    idx.ids_at(st, b) == routed_to_in(rules, *g, ks.take(i as int), st, b),
            decreases n - i,
        {
            let id = g.nodes.key_at(i);
            let ghost pre = ks.take(i as int);
            let ghost start = idx;
            proof {
                lemma_index_step(rules, *g, ks, i as int);
                assert(ks[i as int] == id@);
            }
            let ids = id.as_str();
            let resolved = router.resolve(ids, g);
            assert(ids@ == id@);
            match resolved {
                Some((route, rule_i)) => {
                    let kind_name = match g.get(ids) {
                        Some(node) => string_from(node.kind.as_str()),
                        None => String::new(),
                    };
                    proof {
                        let f = routed_in(rules, *g, pre);
                        if f.len() > 0 {
                            assert(f.contains(f.last()));
                            pre.lemma_filter_contains_rev(
                                |x: Seq<char>| best_rule(rules, *g, x) is Some,
                                f.last(),
                            );
                            let j = choose|j: int| 0 <= j < pre.len() && pre[j] == f.last();
                            assert(ks[j] == pre[j]);
                        }
                    }
                    let ghost lv = idx.location_seq();
                    idx.forward.push_last(id.clone(), (route.stack.clone(), route.bucket.clone()));
                    assert(idx.location_seq() =~= lv.push((route.stack@, route.bucket@)));
                    let ghost before = idx;
                    idx.record_reverse(&route.stack, &route.bucket, id.clone());
                    assert(route_of(rules, *g, id@) == Some((route.stack@, route.bucket@)));
                    let ghost mid = idx;
                    let step = TraceStep {
                        node_id: id.clone(),
                        node_kind: kind_name,
                        selector: router.rules[rule_i].selector.raw.clone(),
                        rule_index: rule_i,
                        stack: route.stack,
                        bucket: route.bucket,
                    };
                    let ghost tv = idx.steps();
                    idx.trace.push(step);
                    proof {
                        let f = routed_in(rules, *g, pre);
                        assert(idx.steps() =~= tv.push(step@));
                        assert(step@ == step_for(rules, *g, id@));
                        assert(steps_of(rules, *g, f.push(id@)) =~= steps_of(rules, *g, f).push(
                            step_for(rules, *g, id@),
                        ));
                        assert(locations_of(rules, *g, f.push(id@)) =~= locations_of(rules, *g, f).push(
                            route_of(rules, *g, id@)->0,
                        ));
                        assert forall|st: Seq<char>, b: Seq<char>| #[trigger] idx.ids_at(st, b)
                            == routed_to_in(rules, *g, ks.take(i + 1), st, b) by {
                            assert(start.ids_at(st, b) == routed_to_in(rules, *g, pre, st, b));
                            assert(before.ids_at(st, b) == start.ids_at(st, b));
                            assert(idx.ids_at(st, b) == mid.ids_at(st, b));
                        }
                    }
                },
                None => {
                    let ghost uv = idx.unrouted_v();
                    let ghost before = idx;
                    idx.unrouted.push(id.clone());
                    assert(idx.unrouted_v() =~= uv.push(id@));
                    assert forall|st: Seq<char>, b: Seq<char>| #[trigger] idx.ids_at(st, b)
                        == routed_to_in(rules, *g, ks.take(i + 1), st, b) by {
                        assert(start.ids_at(st, b) == routed_to_in(rules, *g, pre, st, b));
                        assert(before.ids_at(st, b) == start.ids_at(st, b));
                    }
                },
            }
            i = i + 1;
        }
        assert(ks.take(n as int) =~= ks);
        idx
    }

    /// IR to code location: the (stack, bucket) a node was routed to.
    pub fn location_of(&self, node_id: &str) -> (r: Option<&(String, String)>)
        ensures
            match r {
                Some(p) => self.routed().contains(node_id@) && pair_v(*p) == self.location_seq()[self.routed().index_of(node_id@)],
                None => !self.routed().contains(node_id@),
            },
    {
        let r = self.forward.get(node_id);
        proof {
            self.forward.lemma_lengths();
        }
        r
    }

    /// Code location to IR: the nodes routed to `(stack, bucket)`, in id order.
    pub fn nodes_at(&self, stack: &str, bucket: &str) -> (r: Vec<&String>)
        ensures
            r@.map_values(|s: &String| s@) == self.ids_at(stack@, bucket@),
    {
        let mut r: Vec<&String> = Vec::new();
        match self.reverse.get(stack) {
            Some(inner) => match inner.get(bucket) {
                Some(list) => {
                    let mut i: usize = 0;
                    while i < list.len()
                        invariant
                            i <= list@.len(),
                            self.ids_at(stack@, bucket@) == strings_v(list@),
                            r@.len() == i,
                            forall|k: int| 0 <= k < i ==> r@[k]@ == list@[k]@,
                            r@.map_values(|s: &String| s@) == strings_v(list@).take(i as int),
                        decreases list.len() - i,
                    {
                        r.push(&list[i]);
                        i = i + 1;
                        assert(r@.map_values(|s: &String| s@) =~= strings_v(list@).take(i as int));
                    }
                    assert(strings_v(list@).take(list@.len() as int) =~= strings_v(list@));
                },
                None => {},
            },
            None => {},
        }
        assert(r@.len() == 0 ==> r@.map_values(|s: &String| s@) =~= Seq::<Seq<char>>::empty());
        r
    }

    pub fn routed_count(&self) -> (n: usize)
        ensures
            n == self.routed().len(),
    {
        self.forward.len()
    }

    /// How many nodes were routed to each stack; stacks with none are absent. The counts add
    /// up to the number of routed nodes.
    pub fn stack_distribution(&self) -> (d: StrMap<usize>)
        ensures
            count_sum(d.val_seq()) == self.routed().len(),
            forall|s: Seq<char>| #[trigger]
                d.map().dom().contains(s) == (at_stack(self.location_seq(), s).len() > 0),
            forall|s: Seq<char>| #[trigger]
                d.map().dom().contains(s) ==> d.map()[s] as int == at_stack(self.location_seq(), s).len(),
    {
        let vals = self.forward.values();
        let ghost ls = self.location_seq();
        let mut d: StrMap<usize> = StrMap::new();
        let mut i: usize = 0;
        proof {
            self.forward.lemma_lengths();
            reveal(Seq::filter);
        }
        while i < vals.len()
            invariant
                i <= vals@.len() == ls.len(),
                ls == self.location_seq(),
                forall|j: int| 0 <= j < vals@.len() ==> pair_v(*vals@[j]) == ls[j],
                forall|s: Seq<char>| #[trigger]
                    d.map().dom().contains(s) == (at_stack(ls.take(i as int), s).len() > 0),
                forall|s: Seq<char>| #[trigger]
                    d.map().dom().contains(s) ==> d.map()[s] as int == at_stack(ls.take(i as int), s).len(),
            decreases vals.len() - i,
        {
            let stack = &vals[i].0;
            let ghost st = stack@;
            proof {
                reveal(Seq::filter);
                assert forall|s: Seq<char>| #[trigger]
                    at_stack(ls.take(i + 1), s) == if s == st {
                        at_stack(ls.take(i as int), s).push(ls[i as int])
                    } else {
                        at_stack(ls.take(i as int), s)
                    } by {
                    assert(ls.take(i + 1).drop_last() =~= ls.take(i as int));
                }
                ls.take(i as int).lemma_filter_len(|l: (Seq<char>, Seq<char>)| l.0 == st);
            }
            let cur: usize = match d.get(stack.as_str()) {
                Some(c) => *c,
                None => 0,
            };
            d.insert(stack.clone(), cur + 1);
            i = i + 1;
        }
        assert(ls.take(ls.len() as int) =~= ls);
        let _ = d.len();
        proof {
            self.forward.lemma_lengths();
            let ks = d.key_seq();
            let cs = d.val_seq();
            assert forall|j: int| 0 <= j < ks.len() implies cs[j] as int == #[trigger] at_stack(ls, ks[j]).len() by {
                d.lemma_key_value(j);
            }
            lemma_count_sum_stacks(ls, ks, cs);
            assert forall|a: int, b: int| 0 <= a < b < ks.len() implies ks[a] != ks[b] by {
                lemma_lex_irrefl(ks[a]);
            }
            assert forall|i: int| 0 <= i < ls.len() implies ks.contains(#[trigger] ls[i].0) by {
                reveal(Seq::filter);
                let f = |l: (Seq<char>, Seq<char>)| l.0 == ls[i].0;
                ls.filter_lemma(f);
                assert(ls.filter(f).contains(ls[i]));
                assert(at_stack(ls, ls[i].0).len() > 0);
                assert(at_stack(ls.take(ls.len() as int), ls[i].0).len() > 0);
                assert(d.map().dom().contains(ls[i].0));
            }
            law_distribution_sums(ls, ks);
        }
        d
    }
}

/// The counts of a distribution, added up.
pub open spec fn count_sum(cs: Seq<usize>) -> int
    decreases cs.len(),
{
    if cs.len() == 0 {
        0
    } else {
        count_sum(cs.drop_last()) + cs.last()
    }
}

/// The number of locations in `ls` on each of the stacks `ss`, added up.
pub open spec fn stack_count_sum(ls: Seq<(Seq<char>, Seq<char>)>, ss: Seq<Seq<char>>) -> int
    decreases ss.len(),
{
    if ss.len() == 0 {
        0
    } else {
        stack_count_sum(ls, ss.drop_last()) + at_stack(ls, ss.last()).len()
    }
}

proof fn lemma_count_sum_stacks(ls: Seq<(Seq<char>, Seq<char>)>, ss: Seq<Seq<char>>, cs: Seq<usize>)
    requires
        cs.len() == ss.len(),
        forall|j: int| 0 <= j < ss.len() ==> cs[j] as int == #[trigger] at_stack(ls, ss[j]).len(),
    ensures
        count_sum(cs) == stack_count_sum(ls, ss),
    decreases ss.len(),
{
    if ss.len() > 0 {
        let p = ss.drop_last();
        assert forall|j: int| 0 <= j < p.len() implies cs.drop_last()[j] as int == #[trigger] at_stack(
            ls,
            p[j],
        ).len() by {
            assert(p[j] == ss[j]);
        }
        lemma_count_sum_stacks(ls, p, cs.drop_last());
        assert(at_stack(ls, ss[ss.len() - 1]).len() == cs[cs.len() - 1]);
    }
}

/// How many times `s` occurs in `ss`.
spec fn stack_occurrences(ss: Seq<Seq<char>>, s: Seq<char>) -> int
    decreases ss.len(),
{
    if ss.len() == 0 {
        0
    } else {
        stack_occurrences(ss.drop_last(), s) + if ss.last() == s {
            1int
        } else {
            0int
        }
    }
}

proof fn lemma_stack_sum_step(ls: Seq<(Seq<char>, Seq<char>)>, ss: Seq<Seq<char>>)
    requires
        ls.len() > 0,
    ensures
        stack_count_sum(ls, ss) == stack_count_sum(ls.drop_last(), ss) + stack_occurrences(ss, ls.last().0),
    decreases ss.len(),
{
    reveal(Seq::filter);
    if ss.len() > 0 {
        lemma_stack_sum_step(ls, ss.drop_last());
    }
}

proof fn lemma_occurs_once(ss: Seq<Seq<char>>, s: Seq<char>)
    requires
        forall|a: int, b: int| 0 <= a < b < ss.len() ==> ss[a] != ss[b],
        ss.contains(s),
    ensures
        stack_occurrences(ss, s) == 1,
    decreases ss.len(),
{
    let p = ss.drop_last();
    if ss.last() == s {
        assert(!p.contains(s)) by {
            if p.contains(s) {
                let k = choose|k: int| 0 <= k < p.len() && p[k] == s;
                assert(ss[k] == ss[ss.len() - 1]);
            }
        }
        lemma_occurs_never(p, s);
    } else {
        let k = choose|k: int| 0 <= k < ss.len() && ss[k] == s;
        assert(p[k] == s);
        lemma_occurs_once(p, s);
    }
}

proof fn lemma_occurs_never(ss: Seq<Seq<char>>, s: Seq<char>)
    requires
        !ss.contains(s),
    ensures
        stack_occurrences(ss, s) == 0,
    decreases ss.len(),
{
    if ss.len() > 0 {
        assert(ss[ss.len() - 1] != s);
        assert(!ss.drop_last().contains(s)) by {
            if ss.drop_last().contains(s) {
                let k = choose|k: int| 0 <= k < ss.drop_last().len() && ss.drop_last()[k] == s;
                assert(ss[k] == s);
            }
        }
        lemma_occurs_never(ss.drop_last(), s);
    }
}

/// Counting the locations stack by stack, over stacks listed once each and covering every
/// location, accounts for each location exactly once.
pub proof fn law_distribution_sums(ls: Seq<(Seq<char>, Seq<char>)>, ss: Seq<Seq<char>>)
    requires
        forall|a: int, b: int| 0 <= a < b < ss.len() ==> ss[a] != ss[b],
        forall|i: int| 0 <= i < ls.len() ==> ss.contains(#[trigger] ls[i].0),
    ensures
        stack_count_sum(ls, ss) == ls.len(),
    decreases ls.len(),
{
    if ls.len() == 0 {
        lemma_empty_stack_sum(ss);
        assert(ls =~= Seq::<(Seq<char>, Seq<char>)>::empty());
    } else {
        let p = ls.drop_last();
        assert forall|i: int| 0 <= i < p.len() implies ss.contains(#[trigger] p[i].0) by {
            assert(p[i] == ls[i]);
        }
        law_distribution_sums(p, ss);
        lemma_stack_sum_step(ls, ss);
        assert(ss.contains(ls[ls.len() - 1].0));
        lemma_occurs_once(ss, ls.last().0);
    }
}

proof fn lemma_empty_stack_sum(ss: Seq<Seq<char>>)
    ensures
        stack_count_sum(Seq::<(Seq<char>, Seq<char>)>::empty(), ss) == 0,
    decreases ss.len(),
{
    reveal(Seq::filter);
    if ss.len() > 0 {
        lemma_empty_stack_sum(ss.drop_last());
        assert(at_stack(Seq::<(Seq<char>, Seq<char>)>::empty(), ss.last()) =~= Seq::<(Seq<char>, Seq<char>)>::empty());
    }
}


proof fn lemma_partition(rules: Seq<RoutingRule>, g: Graph, ids: Seq<Seq<char>>)
    ensures
        routed_in(rules, g, ids).len() + unrouted_in(rules, g, ids).len() == ids.len(),
    decreases ids.len(),
{
    reveal(Seq::filter);
    if ids.len() > 0 {
        lemma_partition(rules, g, ids.drop_last());
    }
}

/// Every node is either routed or reported as unrouted, never both and never hidden; and
/// each routed node has exactly one trace step, in id order, naming that node.
pub proof fn law_routing_is_total(rules: Seq<RoutingRule>, g: Graph)
    ensures
        routed_ids(rules, g).len() + unrouted_ids(rules, g).len() == g.nodes.key_seq().len(),
        steps_of(rules, g, routed_ids(rules, g)).len() == routed_ids(rules, g).len(),
        forall|i: int| 0 <= i < routed_ids(rules, g).len() ==> (#[trigger] steps_of(rules, g, routed_ids(rules, g))[i]).node_id
            == routed_ids(rules, g)[i],
{
    lemma_partition(rules, g, g.nodes.key_seq());
}

proof fn lemma_filter_sorted(ks: Seq<Seq<char>>, pred: spec_fn(Seq<char>) -> bool)
    requires
        sorted_keys(ks),
    ensures
        sorted_keys(ks.filter(pred)),
    decreases ks.len(),
{
    broadcast use vstd::seq_lib::group_filter_ensures;

    reveal(Seq::filter);
    if ks.len() > 0 {
        let p = ks.drop_last();
        assert(sorted_keys(p)) by {
            assert forall|i: int, j: int| 0 <= i < j < p.len() implies lex_lt(p[i], p[j]) by {
                assert(p[i] == ks[i] && p[j] == ks[j]);
            }
        }
        lemma_filter_sorted(p, pred);
        let f = p.filter(pred);
        if pred(ks.last()) {
            assert forall|i: int, j: int| 0 <= i < j < f.push(ks.last()).len() implies lex_lt(
                f.push(ks.last())[i],
                f.push(ks.last())[j],
            ) by {
                if j == f.len() {
                    assert(f.contains(f[i]));
                    p.lemma_filter_contains_rev(pred, f[i]);
                    assert(p.contains(f[i]));
                    let w = choose|w: int| 0 <= w < p.len() && p[w] == f[i];
                    assert(ks[w] == f[i]);
                    assert(ks[ks.len() - 1] == ks.last());
                }
            }
        }
    }
}

/// The trace as a whole: it has one step per routed node, in increasing id order, and each
/// step records the node's id and kind, the rule that wins for it (its index and selector
/// text), and the location that rule routes it to.
pub proof fn law_trace_whole(rules: Seq<RoutingRule>, g: Graph)
    requires
        sorted_keys(g.nodes.key_seq()),
    ensures
        steps_of(rules, g, routed_ids(rules, g)).len() == routed_ids(rules, g).len(),
        forall|a: int, b: int|
            0 <= a < b < steps_of(rules, g, routed_ids(rules, g)).len() ==> lex_lt(
                steps_of(rules, g, routed_ids(rules, g))[a].node_id,
                steps_of(rules, g, routed_ids(rules, g))[b].node_id,
            ),
        forall|j: int|
            0 <= j < steps_of(rules, g, routed_ids(rules, g)).len() ==> {
                let t = #[trigger] steps_of(rules, g, routed_ids(rules, g))[j];
                &&& t.node_id == routed_ids(rules, g)[j]
                &&& best_rule(rules, g, t.node_id) == Some(t.rule_index)
                &&& t.selector == rules[t.rule_index].selector.raw@
                &&& route_of(rules, g, t.node_id) == Some((t.stack, t.bucket))
                &&& t.node_kind == kind_label(g.nodes.map()[t.node_id].kind)
            },
{
    broadcast use vstd::seq_lib::group_filter_ensures;

    let ids = routed_ids(rules, g);
    lemma_filter_sorted(g.nodes.key_seq(), |id: Seq<char>| best_rule(rules, g, id) is Some);
    assert forall|j: int| 0 <= j < ids.len() implies best_rule(rules, g, #[trigger] ids[j]) is Some by {}
}

/// The index is a two-way link: a node is listed at a location exactly when it is a node of
/// the graph routed there, and a routed node's recorded location is where it is routed.
pub proof fn law_round_trip(
    rules: Seq<RoutingRule>,
    g: Graph,
    id: Seq<char>,
    stack: Seq<char>,
    bucket: Seq<char>,
)
    ensures
        ids_routed_to(rules, g, stack, bucket).contains(id) <==> (g.nodes.map().dom().contains(id)
            && route_of(rules, g, id) == Some((stack, bucket))),
        routed_ids(rules, g).contains(id) <==> (g.nodes.map().dom().contains(id) && best_rule(
            rules,
            g,
            id,
        ) is Some),
        routed_ids(rules, g).contains(id) ==> locations_of(rules, g, routed_ids(rules, g))[routed_ids(
            rules,
            g,
        ).index_of(id)] == route_of(rules, g, id)->0,
{
    let ks = g.nodes.key_seq();
    let p1 = |x: Seq<char>| route_of(rules, g, x) == Some((stack, bucket));
    let p2 = |x: Seq<char>| best_rule(rules, g, x) is Some;
    if ks.filter(p1).contains(id) {
        ks.lemma_filter_contains_rev(p1, id);
    }
    if g.nodes.map().dom().contains(id) && route_of(rules, g, id) == Some((stack, bucket)) {
        let j = ks.index_of(id);
        ks.lemma_filter_contains(p1, j);
    }
    if ks.filter(p2).contains(id) {
        ks.lemma_filter_contains_rev(p2, id);
    }
    if g.nodes.map().dom().contains(id) && best_rule(rules, g, id) is Some {
        let j = ks.index_of(id);
        ks.lemma_filter_contains(p2, j);
    }
}

} // verus!
