use codeio::ir::{lower, Graph, NodeKind, Provenance};
use codeio::lexer::Lexer;
use codeio::parser::Parser;

fn graph(src: &str) -> Graph {
    let toks = Lexer::new(src).tokenize().unwrap();
    let stmts = Parser::new(toks).parse_program().unwrap();
    lower(&stmts)
}

#[test]
fn materializes_nodes() {
    let g = graph("let x = 1 + 2");
    assert!(!g.is_empty());
    assert_eq!(g.by_kind(&NodeKind::Literal).len(), 2);
    assert_eq!(g.by_kind(&NodeKind::Call).len(), 1);
}

#[test]
fn content_addressing_dedups() {
    let g = graph("let a = 5 + 5");
    let lits = g.by_kind(&NodeKind::Literal);
    assert_eq!(lits.len(), 1);
}

#[test]
fn provenance_on_every_node() {
    let g = graph("fn f(x) { x }");
    for n in g.nodes.values() {
        assert_eq!(n.provenance.author_kind, "human");
        assert_eq!(n.provenance.source_lang, "codeio");
        assert!(!n.provenance.authority_ref.is_empty());
    }
}

#[test]
fn histogram_self_analysis() {
    let g = graph("fn sq(n) { n * n } let a = sq(3)");
    let h = g.kind_histogram();
    assert!(h.get("FN").copied().unwrap_or(0) >= 1);
    assert!(h.get("CALL").copied().unwrap_or(0) >= 1);
}

#[test]
fn roots_and_meta() {
    let g = graph("let x = 1 x");
    assert_eq!(g.roots.len(), 2);
    for r in &g.roots {
        assert!(g.get(r).is_some());
    }
    assert_eq!(g.meta.get("node_count").unwrap(), &g.len().to_string());
}

#[test]
fn children_refer_to_nodes_and_ids_are_short_hex() {
    let g = graph("fn f(a, b) { if a < b { a } else { b } } f(1, 2)");
    for n in g.nodes.values() {
        assert_eq!(n.id.len(), 16);
        assert!(n.id.chars().all(|c| c.is_ascii_hexdigit()));
        assert_eq!(g.get(&n.id).unwrap().id, n.id);
        for c in &n.children {
            assert!(g.get(c).is_some());
        }
    }
}

#[test]
fn attributes_of_lowered_nodes() {
    let g = graph("var v = 3.50 fn add(a, b) { a + b }");
    let lit = g.by_kind(&NodeKind::Literal)[0];
    assert_eq!(lit.attrs.get("type").unwrap(), "Float");
    assert_eq!(lit.attrs.get("value").unwrap(), "3.5");
    let f = g.by_kind(&NodeKind::Fn)[0];
    assert_eq!(f.attrs.get("name").unwrap(), "add");
    assert_eq!(f.attrs.get("params").unwrap(), "a,b");
    let call = g.by_kind(&NodeKind::Call)[0];
    assert_eq!(call.attrs.get("op").unwrap(), "Plus");
    let eff = g.by_kind(&NodeKind::Effect)[0];
    assert_eq!(eff.attrs.get("binding").unwrap(), "v");
    assert_eq!(eff.attrs.get("mutable").unwrap(), "true");
}

#[test]
fn same_program_same_ids() {
    let a = graph("let x = 1 + 2");
    let b = graph("let x = 1 + 2");
    let ka: Vec<&String> = a.nodes.keys();
    let kb: Vec<&String> = b.nodes.keys();
    assert_eq!(ka, kb);
    let c = graph("let x = 1 + 3");
    assert_ne!(ka, c.nodes.keys());
}

#[test]
fn histogram_counts() {
    let g = graph("let a = 1 let b = 2");
    let h = g.kind_histogram();
    assert_eq!(h.get("LITERAL").copied(), Some(2));
    assert_eq!(h.get("EFFECT").copied(), Some(2));
    assert_eq!(h.get("CALL"), None);
    assert_eq!(h.len(), 2);
}

#[test]
fn kind_labels() {
    assert_eq!(NodeKind::TableDef.as_str(), "TABLE_DEF");
    assert_eq!(NodeKind::AiCall.as_str(), "AI_CALL");
    assert_eq!(NodeKind::Effect.as_str(), "EFFECT");
    let p = Provenance::default();
    assert_eq!(p.author, "developer");
    assert_eq!(p.authority_ref, "docs/language.md");
}

#[test]
fn tables_and_queries_lower() {
    let g = graph("table T { n: Int } from r in T where r.n > 0 select r.n");
    assert_eq!(g.by_kind(&NodeKind::TableDef).len(), 1);
    assert_eq!(g.by_kind(&NodeKind::Query).len(), 1);
    let td = g.by_kind(&NodeKind::TableDef)[0];
    assert_eq!(td.attrs.get("schema").unwrap(), "n:Int");
}

#[test]
fn inserts_records_and_reads_fields() {
    let g = graph("table T { sym: Str, qty: Int } insert T { sym: \"A\", qty: 2 } from t in T select t.qty");
    let rec = g.by_kind(&NodeKind::Record)[0];
    assert_eq!(rec.attrs.get("keys").unwrap(), "sym,qty");
    let q = g.by_kind(&NodeKind::Query)[0];
    assert_eq!(q.attrs.get("var").unwrap(), "t");
    assert_eq!(q.attrs.get("source").unwrap(), "T");
    assert_eq!(q.attrs.get("has_select").unwrap(), "true");
    assert!(q.attrs.get("has_filter").is_none());
    let field = g.by_kind(&NodeKind::Ref).into_iter().find(|n| n.attrs.get("field").is_some()).unwrap();
    assert_eq!(field.attrs.get("field").unwrap(), "qty");
}

#[test]
fn kinds_partition_the_nodes() {
    let gr = graph("fn f(a) { a + 1 } let z = f(2)");
    let kinds = [
        NodeKind::Literal,
        NodeKind::Ref,
        NodeKind::Call,
        NodeKind::Fn,
        NodeKind::Match,
        NodeKind::Record,
        NodeKind::TableDef,
        NodeKind::Query,
        NodeKind::AiCall,
        NodeKind::Quote,
        NodeKind::Splice,
        NodeKind::Effect,
    ];
    let total: usize = kinds.iter().map(|k| gr.by_kind(k).len()).sum();
    assert_eq!(total, gr.len());
    let h = gr.kind_histogram();
    let mut hist_total = 0usize;
    for i in 0..h.len() {
        hist_total += *h.value_at(i);
    }
    assert_eq!(hist_total, gr.len());
}
