use codeio::index_service::{IndexServer, IndexTally};
use codeio::records::{ChunkKind, FileRef, IndexEntry, Language, SymbolKind, Visibility};
use codeio::store::IndexStore;
use codeio::symbol_index::SymbolIndexer;
use sha2::{Digest, Sha256};

fn file(path: &str) -> FileRef {
    FileRef {
        path: path.to_string(),
        language: Language::Rust,
        last_modified: None,
        size_bytes: 0,
        workspace_id: String::new(),
    }
}

fn sha_hex(parts: &[&[u8]]) -> String {
    let mut h = Sha256::new();
    for p in parts {
        h.update(p);
    }
    hex::encode(h.finalize())
}

const SRC: &str = "use x;\nfn alpha(a) {\n  a\n}\nstruct Beta {}\n";

#[test]
fn indexes_header_and_symbols() {
    let f = file("src/lib.rs");
    let es = SymbolIndexer.index_file(&f, SRC, "ws");
    assert_eq!(es.len(), 3);

    let h = &es[0];
    assert_eq!(h.chunk_kind, ChunkKind::FileHeader);
    assert_eq!(h.raw_content, "use x;\nfn alpha(a) {\n  a\n}\nstruct Beta {}");
    assert!(h.symbol_record.is_none());
    assert_eq!(h.importance_milli, 500);
    assert_eq!(h.span.unwrap().start.unwrap().line, 0);
    assert_eq!(h.span.unwrap().end.unwrap().line, 4);

    let a = &es[1];
    assert_eq!(a.chunk_kind, ChunkKind::Function);
    assert_eq!(a.raw_content, "fn alpha(a) {\n  a\n}");
    assert_eq!(a.span.unwrap().start.unwrap().line, 1);
    assert_eq!(a.span.unwrap().end.unwrap().line, 3);
    assert_eq!(a.importance_milli, 800);
    let rec = a.symbol_record.as_ref().unwrap();
    // the name is the second word with trailing non-identifier characters removed
    assert_eq!(rec.name, "alpha(a");
    assert_eq!(rec.qualified_name, "lib::alpha(a");
    assert_eq!(rec.kind, SymbolKind::Function);
    assert_eq!(rec.visibility, Visibility::Public);
    assert_eq!(rec.signature, "fn alpha(a) {");
    assert_eq!(rec.doc_comment, "");

    let b = &es[2];
    assert_eq!(b.chunk_kind, ChunkKind::TypeDef);
    assert_eq!(b.symbol_record.as_ref().unwrap().name, "Beta");
    assert_eq!(b.span.unwrap().end.unwrap().line, 4);
    assert_eq!(b.importance_milli, 900);
}

#[test]
fn entry_hashes_and_tokens() {
    let f = file("src/lib.rs");
    let es = SymbolIndexer.index_file(&f, SRC, "ws");
    for e in &es {
        assert_eq!(e.content_hash, sha_hex(&[e.raw_content.as_bytes()]));
        assert_eq!(e.tokens as usize, e.raw_content.len() / 4);
        assert_eq!(e.workspace_id, "ws");
        assert_eq!(e.file_ref.as_ref().unwrap().path, "src/lib.rs");
    }
    assert_eq!(es[0].id, sha_hex(&[b"ws", b"src/lib.rs", b"0"]));
    assert_eq!(es[1].id, sha_hex(&[b"ws", b"src/lib.rs", b"1"]));
    assert_ne!(es[1].id, es[2].id);
}

#[test]
fn doc_comments_above_symbols() {
    let f = file("m.rs");
    let es = SymbolIndexer.index_file(&f, "// top\n/// adds\n# two\nfn f() {}\n", "w");
    let rec = es[1].symbol_record.as_ref().unwrap();
    // the first line of the file is never read as documentation
    assert_eq!(rec.doc_comment, "adds\ntwo");
}

#[test]
fn empty_source_has_no_entries() {
    assert!(SymbolIndexer.index_file(&file("e.rs"), "", "w").is_empty());
}

fn entry(id: &str, path: &str) -> IndexEntry {
    IndexEntry {
        id: id.to_string(),
        workspace_id: "w".into(),
        file_ref: Some(file(path)),
        span: None,
        chunk_kind: ChunkKind::Function,
        symbol_record: None,
        content_hash: String::new(),
        embedding_id: String::new(),
        tokens: 1,
        importance_milli: 700,
        last_indexed: None,
        raw_content: id.to_string(),
    }
}

#[test]
fn store_replaces_a_files_entries() {
    let mut s = IndexStore::new();
    assert_eq!(s.replace_file_entries("a.rs", vec![entry("1", "a.rs"), entry("2", "a.rs")]), 0);
    assert_eq!(s.replace_file_entries("b.rs", vec![entry("3", "b.rs")]), 0);
    let ids: Vec<String> = s.get_file_entries("a.rs").iter().map(|e| e.id.clone()).collect();
    assert_eq!(ids, vec!["1", "2"]);
    assert_eq!(s.all_entries().len(), 3);
    // replacing drops the old entries and reports how many there were
    assert_eq!(s.replace_file_entries("a.rs", vec![entry("4", "a.rs")]), 2);
    assert!(s.get_entry("1").is_none());
    assert_eq!(s.get_entry("4").unwrap().raw_content, "4");
    assert_eq!(s.get_file_entries("a.rs").len(), 1);
    assert_eq!(s.get_file_entries("b.rs").len(), 1);
    assert!(s.get_file_entries("c.rs").is_empty());
    assert_eq!(s.all_entries().len(), 2);
}

#[test]
fn index_service_tallies_new_and_updated_entries() {
    let mut s = IndexServer::new();
    let f = file("src/lib.rs");
    let t = s.index_source(&f, SRC, "ws", IndexTally { indexed: 0, updated: 0 });
    assert_eq!(t, IndexTally { indexed: 3, updated: 0 });
    // the same file again: its entries now count as updates
    let t = s.index_source(&f, "fn only() {}\n", "ws", t);
    assert_eq!(t, IndexTally { indexed: 3, updated: 2 });
    assert_eq!(s.get_entries("src/lib.rs").len(), 2);
    assert!(s.get_entries("other.rs").is_empty());
    let id = s.get_entries("src/lib.rs")[1].id.clone();
    assert_eq!(s.get_entry(&id).unwrap().symbol_record.unwrap().name, "only");
    assert_eq!(s.get_entry("nope").unwrap_err(), "entry nope not found");
    // the header and the function both start at line 0, so they share an id and the store
    // keeps the later one
    assert_eq!(s.store().all_entries().len(), 1);
}

#[test]
fn replacing_twice_is_idempotent_and_spares_other_files() {
    let mut s = IndexStore::new();
    s.replace_file_entries("a.rs", vec![entry("1", "a.rs"), entry("2", "a.rs")]);
    s.replace_file_entries("b.rs", vec![entry("3", "b.rs")]);
    assert_eq!(s.replace_file_entries("a.rs", vec![entry("1", "a.rs"), entry("2", "a.rs")]), 2);
    let ids: Vec<String> = s.get_file_entries("a.rs").iter().map(|e| e.id.clone()).collect();
    assert_eq!(ids, vec!["1".to_string(), "2".to_string()]);
    assert_eq!(s.all_entries().len(), 3);
    assert!(s.get_entry("3").is_some());
    assert_eq!(s.get_file_entries("b.rs").len(), 1);
}
