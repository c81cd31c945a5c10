//! Routing: maps selector matches to destinations. It decides where a node goes and never
//! rewrites it. Cascade: the matching rule of highest specificity wins; among equally
//! specific rules the one declared last wins.

use vstd::prelude::*;
use crate::ir::{Graph, Node};
use crate::selector::{MAX_PARTS, Selector, match_nodes, parse_s, selected, specificity_s};
use crate::text::{str_eq, string_from};

verus! {

/// A destination for routed nodes: a language stack, an adapter, and an index bucket.
/// (The same shape serves styling: stack "render", bucket a style class.)
#[derive(Debug, Clone, PartialEq)]
pub struct Route {
    pub stack: String,
    pub adapter: String,
    pub bucket: String,
}

impl Route {
    pub fn duplicate(&self) -> (r: Route)
        ensures
            r == *self,
    {
        Route { stack: self.stack.clone(), adapter: self.adapter.clone(), bucket: self.bucket.clone() }
    }
}

/// A routing rule: selector to route; its selector's specificity ranks it in the cascade.
#[derive(Debug, Clone)]
pub struct RoutingRule {
    pub selector: Selector,
    pub route: Route,
}

impl RoutingRule {
    pub fn new(sel: &str, stack: &str, adapter: &str, bucket: &str) -> (r: Self)
        ensures
            r.selector.chain_v() == parse_s(sel@),
            r.selector.raw@ == sel@,
            r.selector.chain@.len() <= sel@.len() + 1,
            r.route.stack@ == stack@,
            r.route.adapter@ == adapter@,
            r.route.bucket@ == bucket@,
    {
        RoutingRule {
            selector: Selector::parse(sel),
            route: Route {
                stack: string_from(stack),
                adapter: string_from(adapter),
                bucket: string_from(bucket),
            },
        }
    }
}

/// Whether the rule's selector picks out a node with id `id`.
pub open spec fn rule_hits(rule: RoutingRule, g: Graph, id: Seq<char>) -> bool {
    exists|j: int|
        0 <= j < selected(rule.selector.chain_v(), g.nodes).len() && (#[trigger] selected(
            rule.selector.chain_v(),
            g.nodes,
        )[j]).id@ == id
}

pub open spec fn rule_spec(rule: RoutingRule) -> int {
    specificity_s(rule.selector.chain_v())
}

/// The winning rule among `rules` for node `id`: scanning in order, a hitting rule replaces
/// the current winner unless it is strictly less specific.
pub open spec fn best_rule(rules: Seq<RoutingRule>, g: Graph, id: Seq<char>) -> Option<int>
    decreases rules.len(),
{
    if rules.len() == 0 {
        None
    } else {
        let b = best_rule(rules.drop_last(), g, id);
        let i = rules.len() - 1;
        if rule_hits(rules[i], g, id) {
            match b {
                Some(j) => if rule_spec(rules[i]) < rule_spec(rules[j]) {
                    b
                } else {
                    Some(i)
                },
                None => Some(i),
            }
        } else {
            b
        }
    }
}

/// Every rule's selector is short enough for its specificity to be computed.
pub open spec fn rules_sized(rules: Seq<RoutingRule>) -> bool {
    forall|i: int| 0 <= i < rules.len() ==> (#[trigger] rules[i]).selector.chain@.len() <= MAX_PARTS
}

/// An ordered ruleset.
pub struct Router {
    pub rules: Vec<RoutingRule>,
}

impl Default for Router {
    fn default() -> (r: Self)
        ensures
            r.rules@.len() == 0,
    {
        Router { rules: Vec::new() }
    }
}

impl Router {
    pub fn new() -> (r: Self)
        ensures
            r.rules@.len() == 0,
    {
        Router { rules: Vec::new() }
    }

    /// Appends a rule; returns the router for chaining.
    pub fn add(&mut self, rule: RoutingRule) -> (r: &mut Self)
        ensures
            r.rules@ == old(self).rules@.push(rule),
            *final(self) == *final(r),
    {
        self.rules.push(rule);
        self
    }

    /// Whether rule `i` picks out the node with id `node_id`.
    fn hits(&self, i: usize, node_id: &str, g: &Graph) -> (b: bool)
        requires
            i < self.rules@.len(),
        ensures
            b == rule_hits(self.rules@[i as int], *g, node_id@),
    {
        let hits = match_nodes(&self.rules[i].selector, g);
        let ghost sel = selected(self.rules@[i as int].selector.chain_v(), g.nodes);
        assert(hits@.len() == sel.len());
        let mut j: usize = 0;
        while j < hits.len()
            invariant
                j <= hits@.len(),
                hits@.map_values(|n: &Node| *n) == sel,
                sel == selected(self.rules@[i as int].selector.chain_v(), g.nodes),
                forall|k: int| 0 <= k < j ==> sel[k].id@ != node_id@,
            decreases hits.len() - j,
        {
            assert(*hits@[j as int] == sel[j as int]);
            if str_eq(hits[j].id.as_str(), node_id) {
                return true;
            }
            j = j + 1;
        }
        false
    }

    /// The winning route for a node and the index of the rule that chose it.
    pub fn resolve(&self, node_id: &str, g: &Graph) -> (r: Option<(Route, usize)>)
        requires
            rules_sized(self.rules@),
        ensures
            match r {
                Some((route, k)) => best_rule(self.rules@, *g, node_id@) == Some(k as int) && k
                    < self.rules@.len() && route == self.rules@[k as int].route,
                None => best_rule(self.rules@, *g, node_id@) is None,
            },
    {
        let mut best: Option<(u32, usize)> = None;
        let mut i: usize = 0;
        while i < self.rules.len()
            invariant
                i <= self.rules@.len(),
                rules_sized(self.rules@),
                match best_rule(self.rules@.take(i as int), *g, node_id@) {
                    Some(k) => match best {
                        Some((s, kk)) => kk == k && s == rule_spec(self.rules@[k]) && 0 <= k < i,
                        None => false,
                    },
                    None => best is None,
                },
            decreases self.rules.len() - i,
        {
            let ghost t1 = self.rules@.take(i + 1);
            assert(t1.drop_last() =~= self.rules@.take(i as int));
            assert(t1[i as int] == self.rules@[i as int]);
            assert(forall|j: int| 0 <= j < i ==> t1[j] == self.rules@[j]);
            if self.hits(i, node_id, g) {
                let spec = self.rules[i].selector.specificity();
                match best {
                    Some((bspec, _)) if spec < bspec => {},
                    _ => {
                        best = Some((spec, i));
                    },
                }
            }
            i = i + 1;
        }
        assert(self.rules@.take(self.rules@.len() as int) =~= self.rules@);
        match best {
            Some((_, k)) => Some((self.rules[k].route.duplicate(), k)),
            None => None,
        }
    }
}


/// The cascade: a node gets a route exactly when some rule picks it out; the winning rule
/// picks it out, no hitting rule is more specific, and every hitting rule declared after
/// the winner is strictly less specific (among equally specific rules, the last wins).
pub proof fn law_cascade(rules: Seq<RoutingRule>, g: Graph, id: Seq<char>)
    ensures
        best_rule(rules, g, id) is None <==> forall|i: int| 0 <= i < rules.len() ==> !rule_hits(
            #[trigger] rules[i],
            g,
            id,
        ),
        match best_rule(rules, g, id) {
            Some(k) => {
                &&& 0 <= k < rules.len()
                &&& rule_hits(rules[k], g, id)
                &&& forall|j: int|
                    0 <= j < rules.len() && rule_hits(#[trigger] rules[j], g, id) ==> rule_spec(
                        rules[j],
                    ) <= rule_spec(rules[k])
                &&& forall|j: int|
                    k < j < rules.len() && rule_hits(#[trigger] rules[j], g, id) ==> rule_spec(
                        rules[j],
                    ) < rule_spec(rules[k])
            },
            None => true,
        },
    decreases rules.len(),
{
    if rules.len() > 0 {
        let pre = rules.drop_last();
        law_cascade(pre, g, id);
        assert(forall|j: int| 0 <= j < pre.len() ==> pre[j] == rules[j]);
        let i = rules.len() - 1;
        if best_rule(rules, g, id) is None {
            assert forall|j: int| 0 <= j < rules.len() implies !rule_hits(#[trigger] rules[j], g, id) by {
                if j < i {
                    assert(!rule_hits(pre[j], g, id));
                }
            }
        }
    }
}

} // verus!
