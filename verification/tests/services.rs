use codeio::spotlight::{spotlight_search, SearchMode};
use codeio::context::{assemble, rank, ContextBudget, FocusPoint, IncludeReason};
use codeio::depmap::{extract_imports, module_name, resolve, DepMapError, DepMapServer, DepTarget};
use codeio::records::{
    ChunkKind, EdgeKind, FileRef, IndexEntry, Language, Position, Span, SymbolKind, SymbolRecord,
    Visibility,
};
use codeio::trigram::TrigramIndex;

fn file(path: &str, language: Language) -> FileRef {
    FileRef { path: path.into(), language, last_modified: None, size_bytes: 0, workspace_id: String::new() }
}

#[test]
fn trigram_search_ranks_by_hits() {
    let mut t = TrigramIndex::new();
    t.insert("alpha", "1");
    t.insert("alps", "2");
    t.insert("zzz", "3");
    let (hits, n) = t.search_hits("alp", 10);
    assert_eq!(n, 5);
    assert_eq!(hits, vec![("1".to_string(), 3), ("2".to_string(), 3)]);
    let (hits, _) = t.search_hits("alpha", 1);
    assert_eq!(hits, vec![("1".to_string(), 7)]);
    t.remove("alpha", "1");
    let (hits, _) = t.search_hits("alp", 10);
    assert_eq!(hits, vec![("2".to_string(), 3)]);
}

#[test]
fn trigram_search_folds_case() {
    let mut t = TrigramIndex::new();
    t.insert("ABC", "x");
    let (hits, n) = t.search_hits("abc", 5);
    assert_eq!(n, 5);
    assert_eq!(hits, vec![("x".to_string(), 5)]);
    let (none, n) = t.search_hits("qqq", 5);
    assert!(none.is_empty());
    assert_eq!(n, 5);
    let (empty, n) = t.search_hits("abc", 0);
    assert!(empty.is_empty());
    assert_eq!(n, 5);
}

#[test]
fn imports_by_language() {
    let py = "import os, sys\nfrom collections import deque\nx = 1\n";
    assert_eq!(extract_imports(py, Language::Python), vec!["os", "collections"]);
    let rs = "use std::io;\nuse serde;\nextern crate libc;\nfn main() {}\n";
    assert_eq!(extract_imports(rs, Language::Rust), vec!["std", "serde", "libc"]);
    let js = "import x from \"react\";\nimport y from 'lodash';\n";
    assert_eq!(extract_imports(js, Language::Javascript), vec!["react", "lodash"]);
    let java = "import java.util.List;\n";
    assert_eq!(extract_imports(java, Language::Java), vec!["java"]);
    let hs = "import qualified Data.Map as M\nimport Data.List\n";
    assert_eq!(extract_imports(hs, Language::Haskell), vec!["qualified", "Data.List"]);
    assert!(extract_imports(rs, Language::Cpp).is_empty());
    assert_eq!(module_name("src/codeio/lexer.rs"), "lexer");
}

#[test]
fn dependency_graph_of_a_file() {
    let f = file("src/main.rs", Language::Rust);
    let g = resolve(&f, "use std::fmt;\nuse crate::x;\n");
    assert_eq!(g.nodes.len(), 3);
    assert_eq!(g.nodes[0].id, "src/main.rs");
    assert_eq!(g.nodes[0].module, "main");
    assert_eq!(g.nodes[1].id, "std");
    assert_eq!(g.nodes[2].module, "crate");
    assert!(g.nodes[1].file.is_none());
    assert_eq!(g.edges.len(), 2);
    assert_eq!(g.edges[1].from_id, "src/main.rs");
    assert_eq!(g.edges[1].to_id, "crate");
    assert_eq!(g.edges[0].kind, EdgeKind::Import);
}

#[test]
fn dependency_service_answers() {
    let s = DepMapServer;
    let f = file("a.py", Language::Python);
    assert_eq!(s.file_to_read(&Some(DepTarget::File(f.clone()))).unwrap().path, "a.py");
    assert_eq!(
        s.file_to_read(&Some(DepTarget::SymbolQualifiedName("a::b".into()))).err(),
        Some(DepMapError::Unimplemented("symbol-level dep map not yet implemented".into()))
    );
    assert_eq!(s.file_to_read(&None).err(), Some(DepMapError::InvalidArgument("target is required".into())));
    let g = s.respond(&f, Ok("import os\n".into())).unwrap();
    assert_eq!(g.edges.len(), 1);
    assert_eq!(s.respond(&f, Err("no such file".into())).err(), Some(DepMapError::NotFound("no such file".into())));
}

fn entry(path: &str, name: &str, tokens: i32, importance_milli: u32, lines: (i32, i32)) -> IndexEntry {
    let pos = |l| Some(Position { line: l, column: 0, byte_offset: 0 });
    IndexEntry {
        id: format!("{path}:{name}"),
        workspace_id: "w".into(),
        file_ref: Some(file(path, Language::Rust)),
        span: Some(Span { start: pos(lines.0), end: pos(lines.1) }),
        chunk_kind: ChunkKind::Function,
        symbol_record: Some(SymbolRecord {
            name: name.into(),
            qualified_name: String::new(),
            kind: SymbolKind::Function,
            visibility: Visibility::Public,
            signature: String::new(),
            doc_comment: String::new(),
            defined_at: None,
            references: vec![],
        }),
        content_hash: String::new(),
        embedding_id: String::new(),
        tokens,
        importance_milli,
        last_indexed: None,
        raw_content: String::new(),
    }
}

fn focus(path: &str, line: i32, query: &str) -> FocusPoint {
    FocusPoint {
        file_ref: Some(file(path, Language::Rust)),
        position: Some(Position { line, column: 0, byte_offset: 0 }),
        query: query.into(),
    }
}

#[test]
fn ranking_rules() {
    let f = focus("a.rs", 5, "Parse");
    assert_eq!(rank(&entry("a.rs", "x", 1, 800, (3, 7)), &f), (1000, IncludeReason::FocusPoint));
    assert_eq!(rank(&entry("a.rs", "x", 1, 800, (6, 9)), &f), (900, IncludeReason::SameFile));
    assert_eq!(rank(&entry("b.rs", "parse", 1, 800, (0, 1)), &f), (850, IncludeReason::SymbolRef));
    assert_eq!(rank(&entry("b.rs", "parse_expr", 1, 800, (0, 1)), &f), (700, IncludeReason::SemanticSimilar));
    assert_eq!(rank(&entry("b.rs", "lex", 1, 800, (0, 1)), &f), (400, IncludeReason::SemanticSimilar));
}

#[test]
fn assembles_within_budget() {
    let budget = ContextBudget { max_tokens: 100, system_reserve: 10, history_reserve: 10, response_reserve: 10 };
    let cands = vec![
        entry("b.rs", "lex", 30, 800, (0, 1)),
        entry("a.rs", "here", 40, 800, (4, 6)),
        entry("b.rs", "parse", 40, 800, (0, 1)),
    ];
    let w = assemble("w", focus("a.rs", 5, "parse"), &budget, cands, "req-1".into());
    // ranked: here (1000), parse (850), lex (400); only 70 tokens are available
    assert_eq!(w.slices.len(), 2);
    assert_eq!(w.slices[0].entry.as_ref().unwrap().id, "a.rs:here");
    assert_eq!(w.slices[0].rank, 0);
    assert_eq!(w.slices[1].entry.as_ref().unwrap().id, "b.rs:lex");
    assert_eq!(w.slices[1].rank, 2);
    assert_eq!(w.slices[1].relevance_milli, 400);
    assert_eq!(w.total_tokens, 70);
    assert!(w.truncated);
    assert_eq!(w.truncation_summary, "omitted 1 low-relevance entries (budget: 70 tokens)");
    assert_eq!(w.request_id, "req-1");
    assert_eq!(w.workspace_id, "w");
}

#[test]
fn spotlight_matches_candidates_to_entries() {
    let mut t = TrigramIndex::new();
    t.insert("parse", "p1");
    t.insert("parser", "p2");
    t.insert("pars", "ghost");
    let entries = vec![entry("a.rs", "parse", 1, 700, (0, 1)), entry("b.rs", "parser", 1, 700, (0, 1))];
    let mut es = entries.clone();
    es[0].id = "p1".into();
    es[1].id = "p2".into();
    let (hits, n) = spotlight_search(&t, &es, "parse", 5, SearchMode::Hybrid);
    assert_eq!(n, 7);
    let ids: Vec<(String, usize)> = hits.iter().map(|(e, h)| (e.id.clone(), *h)).collect();
    // "ghost" has no entry and is left out
    assert_eq!(ids, vec![("p1".to_string(), 7), ("p2".to_string(), 5)]);
    let (one, _) = spotlight_search(&t, &es, "parse", 0, SearchMode::Fuzzy);
    assert_eq!(one.len(), 1);
    let (none, n) = spotlight_search(&t, &es, "parse", 5, SearchMode::Semantic);
    assert!(none.is_empty());
    assert_eq!(n, 7);
}

#[test]
fn assembles_with_negative_token_counts() {
    let budget = ContextBudget { max_tokens: 70, system_reserve: 0, history_reserve: 0, response_reserve: 0 };
    let cands = vec![entry("b.rs", "lex", -5, 800, (0, 1)), entry("a.rs", "here", 75, 800, (4, 6))];
    let w = assemble("w", focus("a.rs", 5, ""), &budget, cands, "r".into());
    assert_eq!(w.slices.len(), 1);
    assert_eq!(w.slices[0].entry.as_ref().unwrap().id, "b.rs:lex");
    assert_eq!(w.slices[0].rank, 1);
    assert_eq!(w.total_tokens, -5);
    assert_eq!(w.truncation_summary, "omitted 1 low-relevance entries (budget: 70 tokens)");
}

#[test]
fn rank_stays_within_one() {
    let f = focus("a.rs", 5, "");
    assert_eq!(rank(&entry("b.rs", "x", 1, 4000, (0, 1)), &f), (1000, IncludeReason::SemanticSimilar));
    assert_eq!(rank(&entry("b.rs", "x", 1, 2001, (0, 1)), &f), (1000, IncludeReason::SemanticSimilar));
    assert_eq!(rank(&entry("b.rs", "x", 1, 1999, (0, 1)), &f), (999, IncludeReason::SemanticSimilar));
}

#[test]
fn repeated_trigrams_count_once_per_query_trigram() {
    let mut t = TrigramIndex::new();
    t.insert("aaaa", "x");
    let (hits, n) = t.search_hits("aaaa", 5);
    // "  a", " aa", "aaa", "aaa", "aa ", "a  ": six query trigrams, each matched once
    assert_eq!(n, 6);
    assert_eq!(hits, vec![("x".to_string(), 6)]);
    let (hits, n) = t.search_hits("aaa", 5);
    assert_eq!(n, 5);
    assert_eq!(hits, vec![("x".to_string(), 5)]);
}

#[test]
fn search_sees_insert_then_remove() {
    let mut t = TrigramIndex::new();
    t.insert("parse_source", "a");
    t.insert("lower_expr", "b");
    let (hits, n) = t.search_hits("parse_source", 10);
    assert!(n > 0);
    assert!(hits.iter().any(|(id, _)| id == "a"));
    t.remove("parse_source", "a");
    let (hits, _) = t.search_hits("parse_source", 10);
    assert!(!hits.iter().any(|(id, _)| id == "a"));
}

#[test]
fn insert_finds_related_query_and_keeps_other_scores() {
    let mut t = TrigramIndex::new();
    t.insert("alpha", "1");
    t.insert("alps", "2");
    let (before, _) = t.search_hits("alp", 10);
    t.insert("alpine", "3");
    let (after, _) = t.search_hits("alp", 10);
    assert!(after.iter().any(|(id, _)| id == "3"));
    for (id, n) in &before {
        assert!(after.contains(&(id.clone(), *n)));
    }
}

#[test]
fn insert_then_remove_of_new_id_restores_searches() {
    let mut t = TrigramIndex::new();
    t.insert("alpha", "1");
    t.insert("beta", "2");
    let queries = ["alp", "beta", "ha", "zzz"];
    let before: Vec<_> = queries.iter().map(|q| t.search_hits(q, 10)).collect();
    t.insert("alphabet", "9");
    t.remove("alphabet", "9");
    let after: Vec<_> = queries.iter().map(|q| t.search_hits(q, 10)).collect();
    assert_eq!(before, after);
}
