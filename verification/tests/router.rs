use codeio::ir::{lower, Graph, NodeKind};
use codeio::lexer::Lexer;
use codeio::parser::Parser;
use codeio::route_index::RouteIndex;
use codeio::router::{Router, RoutingRule};

fn g(src: &str) -> Graph {
    let toks = Lexer::new(src).tokenize().unwrap();
    lower(&Parser::new(toks).parse_program().unwrap())
}

#[test]
fn unrouted_reported_not_hidden() {
    let graph = g("let x = 1");
    let router = Router::new();
    let idx = RouteIndex::build(&router, &graph);
    assert_eq!(idx.routed_count(), 0);
    assert!(!idx.unrouted.is_empty());
}

#[test]
fn routes_calls_and_literals() {
    let graph = g("let x = 1 + 2");
    let mut router = Router::new();
    router
        .add(RoutingRule::new("kind(CALL)", "rust", "rust-ops", "ops"))
        .add(RoutingRule::new("kind(LITERAL)", "python", "py", "consts"));
    let idx = RouteIndex::build(&router, &graph);
    assert_eq!(idx.routed_count(), 3);
    assert_eq!(idx.trace.len(), idx.routed_count());
    assert_eq!(idx.unrouted.len(), 1);
    let call = graph.by_kind(&NodeKind::Call)[0];
    assert_eq!(idx.location_of(&call.id).unwrap().0, "rust");
    assert_eq!(idx.location_of(&call.id).unwrap().1, "ops");
    assert_eq!(idx.nodes_at("python", "consts").len(), 2);
    assert_eq!(idx.nodes_at("rust", "ops"), vec![&call.id]);
    assert!(idx.nodes_at("js", "x").is_empty());
    let d = idx.stack_distribution();
    assert_eq!(d.get("python").copied(), Some(2));
    assert_eq!(d.get("rust").copied(), Some(1));
    let mut total = 0usize;
    for i in 0..d.len() {
        total += *d.value_at(i);
    }
    assert_eq!(total, idx.routed_count());
}

#[test]
fn wildcard_loses_to_kind_rule() {
    let graph = g("let x = 1");
    let mut router = Router::new();
    router
        .add(RoutingRule::new("*", "default", "d", "all"))
        .add(RoutingRule::new("kind(LITERAL)", "rust", "r", "consts"));
    let idx = RouteIndex::build(&router, &graph);
    let lit = graph.by_kind(&NodeKind::Literal)[0];
    assert_eq!(idx.location_of(&lit.id).unwrap().0, "rust");
    let eff = graph.by_kind(&NodeKind::Effect)[0];
    assert_eq!(idx.location_of(&eff.id).unwrap().0, "default");
    assert_eq!(router.resolve(&lit.id, &graph).unwrap().1, 1);
}

#[test]
fn equal_specificity_later_rule_wins() {
    let graph = g("let x = 1");
    let mut router = Router::new();
    router
        .add(RoutingRule::new("kind(LITERAL)", "first", "a", "b"))
        .add(RoutingRule::new("kind(literal)", "second", "a", "b"));
    let lit = graph.by_kind(&NodeKind::Literal)[0];
    let (route, i) = router.resolve(&lit.id, &graph).unwrap();
    assert_eq!(route.stack, "second");
    assert_eq!(i, 1);
    assert!(router.resolve("no-such-node", &graph).is_none());
}

#[test]
fn trace_records_each_decision_in_id_order() {
    let graph = g("let x = 1 + 2");
    let mut router = Router::new();
    router.add(RoutingRule::new("*", "any", "a", "all"));
    let idx = RouteIndex::build(&router, &graph);
    assert_eq!(idx.trace.len(), graph.len());
    let keys = graph.nodes.keys();
    for (step, k) in idx.trace.iter().zip(keys.iter()) {
        assert_eq!(&&step.node_id, k);
        assert_eq!(step.selector, "*");
        assert_eq!(step.rule_index, 0);
        assert_eq!(step.stack, "any");
        assert_eq!(step.bucket, "all");
        assert_eq!(step.node_kind, graph.get(k).unwrap().kind.as_str());
    }
}

#[test]
fn routes_and_indexes_bidirectionally() {
    let graph = g("table T { n: Int } from r in T select r.n let x = 1 + 2");
    let mut router = Router::new();
    router
        .add(RoutingRule::new("kind(TABLE_DEF)", "rust", "rust-tables", "schema"))
        .add(RoutingRule::new("kind(QUERY)", "rust", "rust-query", "queries"))
        .add(RoutingRule::new("kind(LITERAL)", "python", "py", "consts"));
    let idx = RouteIndex::build(&router, &graph);

    assert!(idx.routed_count() > 0);
    // forward: a table_def node routes to rust/schema
    let td = graph.by_kind(&NodeKind::TableDef)[0];
    assert_eq!(idx.location_of(&td.id).unwrap().0, "rust");
    // reverse: python/consts contains the literal nodes
    assert!(!idx.nodes_at("python", "consts").is_empty());
    // every routed node has a trace step
    assert_eq!(idx.trace.len(), idx.routed_count());
}

#[test]
fn cascade_specificity_wins() {
    let graph = g("table Users { n: Int }");
    let mut router = Router::new();
    // general rule then specific rule; specific must win
    router
        .add(RoutingRule::new("*", "default", "d", "all"))
        .add(RoutingRule::new("kind(TABLE_DEF)", "rust", "r", "schema"));
    let idx = RouteIndex::build(&router, &graph);
    let td = graph.by_kind(&NodeKind::TableDef)[0];
    assert_eq!(idx.location_of(&td.id).unwrap().0, "rust"); // specific beat *
}
