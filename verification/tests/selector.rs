use codeio::ir::{lower, Graph, NodeKind};
use codeio::lexer::Lexer;
use codeio::parser::Parser;
use codeio::selector::{match_nodes, Selector, SelectorPart};

fn g(src: &str) -> Graph {
    let toks = Lexer::new(src).tokenize().unwrap();
    lower(&Parser::new(toks).parse_program().unwrap())
}

#[test]
fn matches_by_kind() {
    let graph = g("let x = 1 + 2");
    let m = match_nodes(&Selector::parse("kind(LITERAL)"), &graph);
    assert_eq!(m.len(), 2);
}

#[test]
fn containment_chain() {
    let graph = g("fn f(a) { a + a } let z = 9");
    let inside = match_nodes(&Selector::parse("kind(FN) kind(CALL)"), &graph);
    assert!(!inside.is_empty());
    for n in &inside {
        assert_eq!(n.kind, NodeKind::Call);
    }
}

#[test]
fn specificity_orders() {
    assert!(Selector::parse("[k=v]").specificity() > Selector::parse("*").specificity());
    assert!(
        Selector::parse("kind(FN) kind(CALL)").specificity()
            > Selector::parse("kind(CALL)").specificity()
    );
}

#[test]
fn parsing_is_total() {
    let _ = Selector::parse("");
    let _ = Selector::parse("@#$%");
    let _ = Selector::parse("[unclosed");
}

#[test]
fn parse_forms() {
    assert_eq!(Selector::parse("*").chain, vec![SelectorPart::Any]);
    assert_eq!(Selector::parse("").chain, vec![SelectorPart::Any]);
    assert_eq!(Selector::parse("kind(FN)").chain, vec![SelectorPart::Kind("FN".into())]);
    assert_eq!(Selector::parse("table_def").chain, vec![SelectorPart::Kind("table_def".into())]);
    assert_eq!(Selector::parse("[name]").chain, vec![SelectorPart::HasAttr("name".into())]);
    assert_eq!(
        Selector::parse("[op=Plus]").chain,
        vec![SelectorPart::AttrEq("op".into(), "Plus".into())]
    );
    assert_eq!(
        Selector::parse("[schema~=Int]").chain,
        vec![SelectorPart::AttrContains("schema".into(), "Int".into())]
    );
    assert_eq!(
        Selector::parse("[a=b~=c]").chain,
        vec![SelectorPart::AttrContains("a=b".into(), "c".into())]
    );
    assert_eq!(Selector::parse("[unclosed").chain, vec![SelectorPart::Kind("[unclosed".into())]);
    assert_eq!(Selector::parse("  a \t b\n").chain.len(), 2);
    assert_eq!(Selector::parse("kind(FN)").raw, "kind(FN)");
}

#[test]
fn specificity_values() {
    assert_eq!(Selector::parse("*").specificity(), 1);
    assert_eq!(Selector::parse("[k=v]").specificity(), 4);
    assert_eq!(Selector::parse("[k~=v]").specificity(), 3);
    assert_eq!(Selector::parse("kind(FN)").specificity(), 3);
    assert_eq!(Selector::parse("[k]").specificity(), 2);
    assert_eq!(Selector::parse("kind(FN) kind(CALL)").specificity(), 6);
}

#[test]
fn kind_match_ignores_ascii_case() {
    let graph = g("let x = 1 + 2");
    assert_eq!(match_nodes(&Selector::parse("call"), &graph).len(), 1);
    assert_eq!(match_nodes(&Selector::parse("kind(effect)"), &graph).len(), 1);
}

#[test]
fn attribute_selectors() {
    let graph = g("let x = 1 + 2");
    assert_eq!(match_nodes(&Selector::parse("[op=Plus]"), &graph).len(), 1);
    assert_eq!(match_nodes(&Selector::parse("[op~=lu]"), &graph).len(), 1);
    assert_eq!(match_nodes(&Selector::parse("[binding]"), &graph).len(), 1);
    assert_eq!(match_nodes(&Selector::parse("[binding=y]"), &graph).len(), 0);
}

#[test]
fn any_selects_every_node() {
    let graph = g("let x = 1 + 2");
    assert_eq!(match_nodes(&Selector::parse("*"), &graph).len(), graph.len());
}

#[test]
fn ancestor_must_be_above_target() {
    let graph = g("fn f(a) { a + a } let z = 9");
    // no LITERAL lives inside the FN
    assert!(match_nodes(&Selector::parse("kind(FN) kind(LITERAL)"), &graph).is_empty());
    assert_eq!(match_nodes(&Selector::parse("kind(EFFECT) kind(LITERAL)"), &graph).len(), 1);
}

#[test]
fn bareword_is_kind() {
    let graph = g("table T { n: Int }");
    assert_eq!(match_nodes(&Selector::parse("table_def"), &graph).len(), 1);
}

#[test]
fn matches_by_attr() {
    let graph = g("table T { n: Int }");
    let m = match_nodes(&Selector::parse("[schema~=Int]"), &graph);
    assert_eq!(m.len(), 1);
}

#[test]
fn shared_node_is_reached_through_each_parent() {
    // the literal `1` is one node, listed both by the `+` call inside the function and by
    // the top-level `let`
    let graph = g("fn f(a) { a + 1 } let z = 1");
    assert_eq!(match_nodes(&Selector::parse("kind(LITERAL)"), &graph).len(), 1);
    assert_eq!(match_nodes(&Selector::parse("kind(FN) kind(LITERAL)"), &graph).len(), 1);
    assert_eq!(match_nodes(&Selector::parse("kind(EFFECT) kind(LITERAL)"), &graph).len(), 1);
    assert_eq!(match_nodes(&Selector::parse("kind(FN) kind(CALL) kind(LITERAL)"), &graph).len(), 1);
}
