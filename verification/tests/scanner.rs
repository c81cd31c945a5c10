use codeio::records::{FileNode, Language, Timestamp};
use codeio::scanner::{
    count_nodes, detect_language, dir_node, file_node, language_for_extension, sort_listing,
    ScanServer, WorkspaceScanner,
};

#[test]
fn languages_by_extension() {
    assert_eq!(detect_language("src/main.rs"), Language::Rust);
    assert_eq!(detect_language("a/b.cpp"), Language::Cpp);
    assert_eq!(detect_language("x.h"), Language::Cpp);
    assert_eq!(detect_language("Main.lhs"), Language::Haskell);
    assert_eq!(detect_language("core.cljc"), Language::Lisp);
    assert_eq!(detect_language("init.el"), Language::Lisp);
    assert_eq!(detect_language("t.pyi"), Language::Python);
    assert_eq!(detect_language("A.kt"), Language::Java);
    assert_eq!(detect_language("m.mjs"), Language::Javascript);
    assert_eq!(detect_language("types.d.ts"), Language::Typescript);
    assert_eq!(detect_language("index.php"), Language::Php);
    assert_eq!(detect_language("demo.cio"), Language::Codeio);
    assert_eq!(detect_language("README"), Language::Unknown);
    assert_eq!(detect_language("notes.txt"), Language::Unknown);
    assert_eq!(language_for_extension(Some("d.ts")), Language::Typescript);
    assert_eq!(language_for_extension(None), Language::Unknown);
}

fn path(n: &FileNode) -> String {
    n.file_ref.as_ref().unwrap().path.clone()
}

#[test]
fn directories_first_then_by_path() {
    let entries = vec![
        file_node("w/b.rs", None, 3),
        dir_node("w/z", None, 0, vec![]),
        file_node("w/a.rs", None, 1),
        dir_node("w/m", None, 0, vec![]),
    ];
    let sorted = sort_listing(entries);
    let paths: Vec<String> = sorted.iter().map(path).collect();
    assert_eq!(paths, vec!["w/m", "w/z", "w/a.rs", "w/b.rs"]);
    assert!(sorted[0].is_directory && sorted[1].is_directory);
    assert!(!sorted[2].is_directory);
}

#[test]
fn nodes_record_what_was_read() {
    let t = Timestamp { seconds: 1_700_000_000, nanos: 5 };
    let f = file_node("w/a.py", Some(t), 42);
    let r = f.file_ref.as_ref().unwrap();
    assert_eq!(r.path, "w/a.py");
    assert_eq!(r.language, Language::Python);
    assert_eq!(r.last_modified, Some(t));
    assert_eq!(r.size_bytes, 42);
    assert_eq!(r.workspace_id, "");
    assert!(f.children.is_empty() && !f.is_directory);
}

#[test]
fn scan_counts_files_and_directories() {
    let inner = dir_node("w/src", None, 0, vec![file_node("w/src/lib.rs", None, 10), file_node("w/src/main.rs", None, 20)]);
    let root = dir_node("w", None, 0, vec![file_node("w/Cargo.toml", None, 5), inner, dir_node("w/empty", None, 0, vec![])]);
    assert_eq!(count_nodes(&root), (3, 3));
    let scanner = WorkspaceScanner::new("w");
    assert_eq!(scanner.root(), "w");
    let at = Timestamp { seconds: 9, nanos: 0 };
    let r = scanner.scan("ws-1", root, at);
    assert_eq!(r.workspace_id, "ws-1");
    assert_eq!(r.total_files, 3);
    assert_eq!(r.total_directories, 3);
    assert_eq!(r.scanned_at, Some(at));
    assert!(r.errors.is_empty());
    let root = r.root.unwrap();
    let names: Vec<String> = root.children.iter().map(path).collect();
    assert_eq!(names, vec!["w/empty", "w/src", "w/Cargo.toml"]);
    assert_eq!(count_nodes(&file_node("x", None, 0)), (1, 0));
}

#[test]
fn scan_server_holds_its_root() {
    let s = ScanServer::new("/repo");
    assert_eq!(s.scanner().root(), "/repo");
}

#[test]
fn entries_in_the_same_place_keep_their_order() {
    let sorted = sort_listing(vec![
        file_node("w/x", None, 1),
        dir_node("w/d", None, 0, vec![]),
        file_node("w/x", None, 2),
        file_node("w/a", None, 3),
    ]);
    let sizes: Vec<i64> = sorted.iter().map(|n| n.file_ref.as_ref().unwrap().size_bytes).collect();
    assert_eq!(sizes, vec![0, 3, 1, 2]);
}
