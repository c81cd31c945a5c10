//! The workspace scanner's tree: the language of each file, the order of a directory's
//! entries (directories first, then by path), and the counts of files and directories.
//! Walking the file system and reading the clock stay with the caller, which hands in what
//! it found.

use vstd::prelude::*;
use crate::records::{FileNode, FileRef, Language, ScanResult, Timestamp};
use crate::stdtext::{extension, extension_of};
use crate::strmap::{lemma_lex_asym, lemma_lex_irrefl, lemma_lex_total, lemma_lex_trans, lex_lt, str_lt};
use crate::text::str_eq;

verus! {

broadcast use vstd::seq_lib::group_to_multiset_ensures;

/// The language of a file extension.
pub open spec fn language_of_ext(e: Option<Seq<char>>) -> Language {
    match e {
        Some(x) => if x == "cpp"@ || x == "cxx"@ || x == "cc"@ || x == "c"@ || x == "h"@ || x
            == "hpp"@ {
            Language::Cpp
        } else if x == "rs"@ {
            Language::Rust
        } else if x == "hs"@ || x == "lhs"@ {
            Language::Haskell
        } else if x == "clj"@ || x == "cljs"@ || x == "cljc"@ || x == "edn"@ || x == "lisp"@ || x
            == "el"@ || x == "scm"@ || x == "rkt"@ {
            Language::Lisp
        } else if x == "py"@ || x == "pyi"@ {
            Language::Python
        } else if x == "java"@ || x == "kt"@ || x == "kts"@ {
            Language::Java
        } else if x == "js"@ || x == "mjs"@ || x == "cjs"@ {
            Language::Javascript
        } else if x == "ts"@ || x == "tsx"@ || x == "d.ts"@ {
            Language::Typescript
        } else if x == "php"@ {
            Language::Php
        } else if x == "cio"@ {
            Language::Codeio
        } else {
            Language::Unknown
        },
        None => Language::Unknown,
    }
}

/// Which extensions name which language: C and C++ (`cpp`, `cxx`, `cc`, `c`, `h`, `hpp`),
/// Rust (`rs`), Haskell (`hs`, `lhs`), the Lisps (`clj`, `cljs`, `cljc`, `edn`, `lisp`,
/// `el`, `scm`, `rkt`), Python (`py`, `pyi`), Java and Kotlin (`java`, `kt`, `kts`),
/// JavaScript (`js`, `mjs`, `cjs`), TypeScript (`ts`, `tsx`, `d.ts`), PHP (`php`) and CodeIO
/// (`cio`); any other extension, or none, is unknown. Each extension names exactly one
/// language.
pub proof fn law_language_of_ext(x: Seq<char>)
    ensures
        language_of_ext(Some(x)) == Language::Cpp <==> (x == "cpp"@ || x == "cxx"@ || x == "cc"@ || x == "c"@ || x == "h"@ || x == "hpp"@),
        language_of_ext(Some(x)) == Language::Rust <==> (x == "rs"@),
        language_of_ext(Some(x)) == Language::Haskell <==> (x == "hs"@ || x == "lhs"@),
        language_of_ext(Some(x)) == Language::Lisp <==> (x == "clj"@ || x == "cljs"@ || x == "cljc"@ || x == "edn"@ || x == "lisp"@ || x == "el"@ || x == "scm"@ || x == "rkt"@),
        language_of_ext(Some(x)) == Language::Python <==> (x == "py"@ || x == "pyi"@),
        language_of_ext(Some(x)) == Language::Java <==> (x == "java"@ || x == "kt"@ || x == "kts"@),
        language_of_ext(Some(x)) == Language::Javascript <==> (x == "js"@ || x == "mjs"@ || x == "cjs"@),
        language_of_ext(Some(x)) == Language::Typescript <==> (x == "ts"@ || x == "tsx"@ || x == "d.ts"@),
        language_of_ext(Some(x)) == Language::Php <==> (x == "php"@),
        language_of_ext(Some(x)) == Language::Codeio <==> (x == "cio"@),
        language_of_ext(Some(x)) == Language::Unknown <==> !(x == "cpp"@ || x == "cxx"@ || x == "cc"@ || x == "c"@ || x == "h"@ || x == "hpp"@ || x == "rs"@ || x == "hs"@ || x == "lhs"@ || x == "clj"@ || x == "cljs"@ || x == "cljc"@ || x == "edn"@ || x == "lisp"@ || x == "el"@ || x == "scm"@ || x == "rkt"@ || x == "py"@ || x == "pyi"@ || x == "java"@ || x == "kt"@ || x == "kts"@ || x == "js"@ || x == "mjs"@ || x == "cjs"@ || x == "ts"@ || x == "tsx"@ || x == "d.ts"@ || x == "php"@ || x == "cio"@),
        language_of_ext(None) == Language::Unknown,
{
    reveal_strlit("cpp");
    assert("cpp"@ =~= seq!['c', 'p', 'p']);
    reveal_strlit("cxx");
    assert("cxx"@ =~= seq!['c', 'x', 'x']);
    reveal_strlit("cc");
    assert("cc"@ =~= seq!['c', 'c']);
    reveal_strlit("c");
    assert("c"@ =~= seq!['c']);
    reveal_strlit("h");
    assert("h"@ =~= seq!['h']);
    reveal_strlit("hpp");
    assert("hpp"@ =~= seq!['h', 'p', 'p']);
    reveal_strlit("rs");
    assert("rs"@ =~= seq!['r', 's']);
    reveal_strlit("hs");
    assert("hs"@ =~= seq!['h', 's']);
    reveal_strlit("lhs");
    assert("lhs"@ =~= seq!['l', 'h', 's']);
    reveal_strlit("clj");
    assert("clj"@ =~= seq!['c', 'l', 'j']);
    reveal_strlit("cljs");
    assert("cljs"@ =~= seq!['c', 'l', 'j', 's']);
    reveal_strlit("cljc");
    assert("cljc"@ =~= seq!['c', 'l', 'j', 'c']);
    reveal_strlit("edn");
    assert("edn"@ =~= seq!['e', 'd', 'n']);
    reveal_strlit("lisp");
    assert("lisp"@ =~= seq!['l', 'i', 's', 'p']);
    reveal_strlit("el");
    assert("el"@ =~= seq!['e', 'l']);
    reveal_strlit("scm");
    assert("scm"@ =~= seq!['s', 'c', 'm']);
    reveal_strlit("rkt");
    assert("rkt"@ =~= seq!['r', 'k', 't']);
    reveal_strlit("py");
    assert("py"@ =~= seq!['p', 'y']);
    reveal_strlit("pyi");
    assert("pyi"@ =~= seq!['p', 'y', 'i']);
    reveal_strlit("java");
    assert("java"@ =~= seq!['j', 'a', 'v', 'a']);
    reveal_strlit("kt");
    assert("kt"@ =~= seq!['k', 't']);
    reveal_strlit("kts");
    assert("kts"@ =~= seq!['k', 't', 's']);
    reveal_strlit("js");
    assert("js"@ =~= seq!['j', 's']);
    reveal_strlit("mjs");
    assert("mjs"@ =~= seq!['m', 'j', 's']);
    reveal_strlit("cjs");
    assert("cjs"@ =~= seq!['c', 'j', 's']);
    reveal_strlit("ts");
    assert("ts"@ =~= seq!['t', 's']);
    reveal_strlit("tsx");
    assert("tsx"@ =~= seq!['t', 's', 'x']);
    reveal_strlit("d.ts");
    assert("d.ts"@ =~= seq!['d', '.', 't', 's']);
    reveal_strlit("php");
    assert("php"@ =~= seq!['p', 'h', 'p']);
    reveal_strlit("cio");
    assert("cio"@ =~= seq!['c', 'i', 'o']);
    assert(language_of_ext(Some("cpp"@)) == Language::Cpp);
    assert(language_of_ext(Some("cxx"@)) == Language::Cpp);
    assert(language_of_ext(Some("cc"@)) == Language::Cpp);
    assert(language_of_ext(Some("c"@)) == Language::Cpp);
    assert(language_of_ext(Some("h"@)) == Language::Cpp);
    assert(language_of_ext(Some("hpp"@)) == Language::Cpp);
    assert(language_of_ext(Some("rs"@)) == Language::Rust);
    assert(language_of_ext(Some("hs"@)) == Language::Haskell);
    assert(language_of_ext(Some("lhs"@)) == Language::Haskell);
    assert(language_of_ext(Some("clj"@)) == Language::Lisp);
    assert(language_of_ext(Some("cljs"@)) == Language::Lisp);
    assert(language_of_ext(Some("cljc"@)) == Language::Lisp);
    assert(language_of_ext(Some("edn"@)) == Language::Lisp);
    assert(language_of_ext(Some("lisp"@)) == Language::Lisp);
    assert(language_of_ext(Some("el"@)) == Language::Lisp);
    assert(language_of_ext(Some("scm"@)) == Language::Lisp);
    assert(language_of_ext(Some("rkt"@)) == Language::Lisp);
    assert(language_of_ext(Some("py"@)) == Language::Python);
    assert(language_of_ext(Some("pyi"@)) == Language::Python);
    assert(language_of_ext(Some("java"@)) == Language::Java);
    assert(language_of_ext(Some("kt"@)) == Language::Java);
    assert(language_of_ext(Some("kts"@)) == Language::Java);
    assert(language_of_ext(Some("js"@)) == Language::Javascript);
    assert(language_of_ext(Some("mjs"@)) == Language::Javascript);
    assert(language_of_ext(Some("cjs"@)) == Language::Javascript);
    assert(language_of_ext(Some("ts"@)) == Language::Typescript);
    assert(language_of_ext(Some("tsx"@)) == Language::Typescript);
    assert(language_of_ext(Some("d.ts"@)) == Language::Typescript);
    assert(language_of_ext(Some("php"@)) == Language::Php);
    assert(language_of_ext(Some("cio"@)) == Language::Codeio);
}

fn any_of(x: &str, opts: &[&str]) -> (b: bool)
    ensures
        b == exists|i: int| 0 <= i < opts@.len() && x@ == (#[trigger] opts@[i])@,
{
    let mut i: usize = 0;
    while i < opts.len()
        invariant
            i <= opts@.len(),
            forall|k: int| 0 <= k < i ==> x@ != (#[trigger] opts@[k])@,
        decreases opts.len() - i,
    {
        if str_eq(x, opts[i]) {
            return true;
        }
        i = i + 1;
    }
    false
}

/// The language of a file extension.
pub fn language_for_extension(e: Option<&str>) -> (l: Language)
    ensures
        l == language_of_ext(
            match e {
                Some(x) => Some(x@),
                None => None,
            },
        ),
{
    match e {
        None => Language::Unknown,
        Some(x) => {
            let cpp: [&str; 6] = ["cpp", "cxx", "cc", "c", "h", "hpp"];
            let hs: [&str; 2] = ["hs", "lhs"];
            let lisp: [&str; 8] = ["clj", "cljs", "cljc", "edn", "lisp", "el", "scm", "rkt"];
            let py: [&str; 2] = ["py", "pyi"];
            let java: [&str; 3] = ["java", "kt", "kts"];
            let js: [&str; 3] = ["js", "mjs", "cjs"];
            let ts: [&str; 3] = ["ts", "tsx", "d.ts"];
            assert(cpp@ =~= seq!["cpp", "cxx", "cc", "c", "h", "hpp"]);
            assert(hs@ =~= seq!["hs", "lhs"]);
            assert(lisp@ =~= seq!["clj", "cljs", "cljc", "edn", "lisp", "el", "scm", "rkt"]);
            assert(py@ =~= seq!["py", "pyi"]);
            assert(java@ =~= seq!["java", "kt", "kts"]);
            assert(js@ =~= seq!["js", "mjs", "cjs"]);
            assert(ts@ =~= seq!["ts", "tsx", "d.ts"]);
            let r = if any_of(x, cpp.as_slice()) {
                Language::Cpp
            } else if str_eq(x, "rs") {
                Language::Rust
            } else if any_of(x, hs.as_slice()) {
                Language::Haskell
            } else if any_of(x, lisp.as_slice()) {
                Language::Lisp
            } else if any_of(x, py.as_slice()) {
                Language::Python
            } else if any_of(x, java.as_slice()) {
                Language::Java
            } else if any_of(x, js.as_slice()) {
                Language::Javascript
            } else if any_of(x, ts.as_slice()) {
                Language::Typescript
            } else if str_eq(x, "php") {
                Language::Php
            } else if str_eq(x, "cio") {
                Language::Codeio
            } else {
                Language::Unknown
            };
            r
        },
    }
}

/// The language of the file at `path`, by its extension.
pub fn detect_language(path: &str) -> (l: Language)
    ensures
        l == language_of_ext(extension(path@)),
{
    match extension_of(path) {
        Some(e) => language_for_extension(Some(e.as_str())),
        None => language_for_extension(None),
    }
}

/// The numbers of files and of directories in a tree, the root included.
pub open spec fn tree_counts(n: FileNode) -> (nat, nat)
    decreases n,
{
    if n.is_directory {
        let c = forest_counts(n.children@);
        (c.0, c.1 + 1)
    } else {
        (1, 0)
    }
}

/// The numbers of files and of directories in a sequence of trees.
pub open spec fn forest_counts(ns: Seq<FileNode>) -> (nat, nat)
    decreases ns,
{
    if ns.len() == 0 {
        (0, 0)
    } else {
        let a = forest_counts(ns.drop_last());
        let b = tree_counts(ns[ns.len() - 1]);
        (a.0 + b.0, a.1 + b.1)
    }
}

pub open spec fn cap(n: nat) -> nat {
    if n > usize::MAX {
        usize::MAX as nat
    } else {
        n
    }
}

/// The numbers of files and of directories in the tree, each capped at `usize::MAX`.
pub fn count_nodes(node: &FileNode) -> (r: (usize, usize))
    ensures
        r.0 == cap(tree_counts(*node).0),
        r.1 == cap(tree_counts(*node).1),
    decreases node,
{
    if node.is_directory {
        let mut f: usize = 0;
        let mut d: usize = 0;
        let mut i: usize = 0;
        assert(node.children@.take(0) =~= Seq::<FileNode>::empty());
        while i < node.children.len()
            invariant
                i <= node.children@.len(),
                f == cap(forest_counts(node.children@.take(i as int)).0),
                d == cap(forest_counts(node.children@.take(i as int)).1),
            decreases node.children.len() - i,
        {
            let ghost ch = node.children@;
            assert(ch.take(i + 1).drop_last() =~= ch.take(i as int));
            assert(ch.take(i + 1)[i as int] == ch[i as int]);
            let (cf, cd) = count_nodes(&node.children[i]);
            f = f.saturating_add(cf);
            d = d.saturating_add(cd);
            i = i + 1;
        }
        assert(node.children@.take(node.children@.len() as int) =~= node.children@);
        (f, d.saturating_add(1))
    } else {
        (1, 0)
    }
}

/// The path of a node's file, empty where it has none.
pub open spec fn node_path(n: FileNode) -> Seq<char> {
    match n.file_ref {
        Some(f) => f.path@,
        None => Seq::empty(),
    }
}

/// `a` comes before `b` in a directory listing: directories first, then by path.
pub open spec fn listed_before(a: FileNode, b: FileNode) -> bool {
    (a.is_directory && !b.is_directory) || (a.is_directory == b.is_directory && lex_lt(
        node_path(a),
        node_path(b),
    ))
}

/// Nothing in `s` is listed before an entry that precedes it.
pub open spec fn listing_ordered(s: Seq<FileNode>) -> bool {
    forall|i: int, j: int| 0 <= i < j < s.len() ==> !listed_before(#[trigger] s[j], #[trigger] s[i])
}

fn path_of(n: &FileNode) -> (r: &str)
    ensures
        r@ == node_path(*n),
{
    proof {
        reveal_strlit("");
    }
    match &n.file_ref {
        Some(f) => f.path.as_str(),
        None => "",
    }
}

fn before_in_listing(a: &FileNode, b: &FileNode) -> (r: bool)
    ensures
        r == listed_before(*a, *b),
{
    (a.is_directory && !b.is_directory) || (a.is_directory == b.is_directory && str_lt(
        path_of(a),
        path_of(b),
    ))
}

proof fn lemma_listing_order(a: FileNode, b: FileNode, c: FileNode)
    ensures
        !listed_before(a, a),
        listed_before(a, b) ==> !listed_before(b, a),
        !listed_before(a, b) && !listed_before(b, c) ==> !listed_before(a, c),
{
    let (pa, pb, pc) = (node_path(a), node_path(b), node_path(c));
    lemma_lex_irrefl(pa);
    if lex_lt(pa, pb) && lex_lt(pb, pa) {
        lemma_lex_asym(pa, pb);
    }
    if !listed_before(a, b) && !listed_before(b, c) && listed_before(a, c) {
        assert(a.is_directory == b.is_directory && b.is_directory == c.is_directory);
        lemma_lex_total(pa, pb);
        lemma_lex_total(pb, pc);
        if lex_lt(pb, pa) && lex_lt(pc, pb) {
            lemma_lex_trans(pc, pb, pa);
            lemma_lex_asym(pc, pa);
        } else if lex_lt(pb, pa) {
            assert(pb =~= pc);
            lemma_lex_asym(pc, pa);
        } else if lex_lt(pc, pb) {
            assert(pa =~= pb);
            lemma_lex_asym(pc, pa);
        } else {
            assert(pa =~= pb);
            assert(pb =~= pc);
        }
    }
}

proof fn lemma_listing_strict(a: FileNode, b: FileNode, c: FileNode)
    ensures
        listed_before(a, b) && listed_before(b, c) ==> listed_before(a, c),
        listed_before(a, b) && !listed_before(c, b) ==> listed_before(a, c),
        same_place(a, b) ==> !listed_before(a, b),
{
    let (pa, pb, pc) = (node_path(a), node_path(b), node_path(c));
    lemma_lex_irrefl(pa);
    if listed_before(a, b) && listed_before(b, c) && lex_lt(pa, pb) && lex_lt(pb, pc) {
        lemma_lex_trans(pa, pb, pc);
    }
    if listed_before(a, b) && !listed_before(c, b) && a.is_directory == c.is_directory {
        lemma_lex_total(pc, pb);
        if lex_lt(pb, pc) {
            lemma_lex_trans(pa, pb, pc);
        } else {
            assert(pb =~= pc);
        }
    }
}

/// `a` and `b` take the same place in a listing: both directories or both files, with the
/// same path.
pub open spec fn same_place(a: FileNode, b: FileNode) -> bool {
    a.is_directory == b.is_directory && node_path(a) == node_path(b)
}

/// `r` is `src` reordered by the positions `p` (`r[i]` is `src[p[i]]`, no position used
/// twice), and entries that take the same place keep their order.
pub open spec fn stable_reorder(p: Seq<int>, src: Seq<FileNode>, r: Seq<FileNode>) -> bool {
    &&& p.len() == r.len() == src.len()
    &&& forall|i: int| 0 <= i < p.len() ==> 0 <= #[trigger] p[i] < src.len() && r[i] == src[p[i]]
    &&& forall|i: int, j: int| 0 <= i < j < p.len() ==> #[trigger] p[i] != #[trigger] p[j]
    &&& forall|i: int, j: int|
        0 <= i < j < p.len() && same_place(#[trigger] r[i], #[trigger] r[j]) ==> p[i] < p[j]
}

/// The entries of a directory in listing order: directories first, then by path; entries
/// that take the same place keep the order they came in.
pub fn sort_listing(entries: Vec<FileNode>) -> (r: Vec<FileNode>)
    ensures
        r@.to_multiset() == entries@.to_multiset(),
        listing_ordered(r@),
        exists|p: Seq<int>| stable_reorder(p, entries@, r@),
{
    let ghost src = entries@;
    let ghost n = src.len();
    let mut rest = entries;
    let mut out: Vec<FileNode> = Vec::new();
    let ghost mut rest_p: Seq<int> = Seq::new(n, |i: int| i);
    let ghost mut out_p: Seq<int> = Seq::empty();
    while rest.len() > 0
        invariant
            src == entries@,
            n == src.len(),
            out@.to_multiset().add(rest@.to_multiset()) == src.to_multiset(),
            listing_ordered(out@),
            forall|i: int, j: int|
                0 <= i < out@.len() && 0 <= j < rest@.len() ==> !listed_before(
                    #[trigger] rest@[j],
                    #[trigger] out@[i],
                ),
            out_p.len() == out@.len(),
            rest_p.len() == rest@.len(),
            out_p.len() + rest_p.len() == n,
            forall|i: int| 0 <= i < out_p.len() ==> 0 <= #[trigger] out_p[i] < n && out@[i] == src[out_p[i]],
            forall|j: int| 0 <= j < rest_p.len() ==> 0 <= #[trigger] rest_p[j] < n && rest@[j] == src[rest_p[j]],
            forall|a: int, b: int| 0 <= a < b < rest_p.len() ==> #[trigger] rest_p[a] < #[trigger] rest_p[b],
            forall|a: int, b: int| 0 <= a < b < out_p.len() ==> #[trigger] out_p[a] != #[trigger] out_p[b],
            forall|a: int, b: int|
                0 <= a < out_p.len() && 0 <= b < rest_p.len() ==> #[trigger] out_p[a] != #[trigger] rest_p[b],
            forall|a: int, b: int|
                0 <= a < b < out_p.len() && same_place(#[trigger] out@[a], #[trigger] out@[b]) ==> out_p[a] < out_p[b],
            forall|a: int, b: int|
                0 <= a < out_p.len() && 0 <= b < rest_p.len() && same_place(#[trigger] out@[a], #[trigger] rest@[b])
                    ==> out_p[a] < rest_p[b],
        decreases rest.len(),
    {
        let mut m: usize = 0;
        let mut k: usize = 1;
        proof {
            lemma_listing_order(rest@[0], rest@[0], rest@[0]);
        }
        while k < rest.len()
            invariant
                0 <= m < k <= rest@.len(),
                forall|j: int| 0 <= j < k ==> !listed_before(#[trigger] rest@[j], rest@[m as int]),
                forall|j: int| 0 <= j < m ==> listed_before(rest@[m as int], #[trigger] rest@[j]),
            decreases rest.len() - k,
        {
            if before_in_listing(&rest[k], &rest[m]) {
                proof {
                    assert forall|j: int| 0 <= j < k + 1 implies !listed_before(
                        #[trigger] rest@[j],
                        rest@[k as int],
                    ) by {
                        lemma_listing_order(rest@[j], rest@[m as int], rest@[k as int]);
                        lemma_listing_order(rest@[k as int], rest@[m as int], rest@[j]);
                    }
                    assert forall|j: int| 0 <= j < k implies listed_before(
                        rest@[k as int],
                        #[trigger] rest@[j],
                    ) by {
                        lemma_listing_strict(rest@[k as int], rest@[m as int], rest@[j]);
                    }
                }
                m = k;
            }
            k = k + 1;
        }
        let ghost old_rest = rest@;
        let ghost old_out = out@;
        let ghost old_rest_p = rest_p;
        let ghost old_out_p = out_p;
        let e = rest.remove(m);
        proof {
            vstd::seq_lib::to_multiset_remove(old_rest, m as int);
        }
        out.push(e);
        proof {
            rest_p = old_rest_p.remove(m as int);
            out_p = old_out_p.push(old_rest_p[m as int]);
            vstd::seq_lib::to_multiset_build(old_out, e);
            assert(out@.to_multiset().add(rest@.to_multiset()) =~= src.to_multiset());
            assert forall|i: int, j: int| 0 <= i < j < out@.len() implies !listed_before(
                #[trigger] out@[j],
                #[trigger] out@[i],
            ) by {
                if j == out@.len() - 1 {
                    assert(old_rest[m as int] == e);
                }
            }
            assert forall|i: int, j: int|
                0 <= i < out@.len() && 0 <= j < rest@.len() implies !listed_before(
                #[trigger] rest@[j],
                #[trigger] out@[i],
            ) by {
                let jj = if j < m { j } else { j + 1 };
                assert(rest@[j] == old_rest[jj]);
                if i == out@.len() - 1 {
                } else {
                    assert(out@[i] == old_out[i]);
                }
            }
            assert forall|i: int| 0 <= i < out_p.len() implies 0 <= #[trigger] out_p[i] < n && out@[i] == src[out_p[i]] by {
                if i < old_out_p.len() {
                    assert(out_p[i] == old_out_p[i]);
                }
            }
            assert forall|j: int| 0 <= j < rest_p.len() implies 0 <= #[trigger] rest_p[j] < n && rest@[j] == src[rest_p[j]] by {
                let jj = if j < m { j } else { j + 1 };
                assert(rest_p[j] == old_rest_p[jj]);
                assert(rest@[j] == old_rest[jj]);
            }
            assert forall|a: int, b: int| 0 <= a < b < rest_p.len() implies #[trigger] rest_p[a] < #[trigger] rest_p[b] by {
                let aa = if a < m { a } else { a + 1 };
                let bb = if b < m { b } else { b + 1 };
                assert(rest_p[a] == old_rest_p[aa]);
                assert(rest_p[b] == old_rest_p[bb]);
            }
            assert forall|a: int, b: int| 0 <= a < b < out_p.len() implies #[trigger] out_p[a] != #[trigger] out_p[b] by {
                if b == out_p.len() - 1 {
                    assert(out_p[a] == old_out_p[a]);
                } else {
                    assert(out_p[a] == old_out_p[a]);
                    assert(out_p[b] == old_out_p[b]);
                }
            }
            assert forall|a: int, b: int|
                0 <= a < out_p.len() && 0 <= b < rest_p.len() implies #[trigger] out_p[a] != #[trigger] rest_p[b] by {
                let bb = if b < m { b } else { b + 1 };
                assert(rest_p[b] == old_rest_p[bb]);
                if a < old_out_p.len() {
                    assert(out_p[a] == old_out_p[a]);
                }
            }
            assert forall|a: int, b: int|
                0 <= a < b < out_p.len() && same_place(#[trigger] out@[a], #[trigger] out@[b]) implies out_p[a] < out_p[b] by {
                assert(out_p[a] == old_out_p[a]);
                assert(out@[a] == old_out[a]);
                if b < old_out_p.len() {
                    assert(out_p[b] == old_out_p[b]);
                    assert(out@[b] == old_out[b]);
                } else {
                    assert(out@[b] == old_rest[m as int]);
                }
            }
            assert forall|a: int, b: int|
                0 <= a < out_p.len() && 0 <= b < rest_p.len() && same_place(#[trigger] out@[a], #[trigger] rest@[b])
                    implies out_p[a] < rest_p[b] by {
                let bb = if b < m { b } else { b + 1 };
                assert(rest_p[b] == old_rest_p[bb]);
                assert(rest@[b] == old_rest[bb]);
                if a < old_out_p.len() {
                    assert(out_p[a] == old_out_p[a]);
                    assert(out@[a] == old_out[a]);
                } else {
                    assert(out@[a] == old_rest[m as int]);
                    if bb < m {
                        lemma_listing_strict(old_rest[m as int], old_rest[bb], old_rest[bb]);
                        assert(listed_before(old_rest[m as int], old_rest[bb]));
                        assert(same_place(old_rest[bb], old_rest[m as int]));
                        lemma_listing_strict(old_rest[m as int], old_rest[bb], old_rest[m as int]);
                    }
                }
            }
        }
    }
    assert(stable_reorder(out_p, src, out@));
    out
}

/// `r` records the entry at `path` with the given modification time and size.
pub open spec fn ref_made(r: FileRef, path: Seq<char>, last_modified: Option<Timestamp>, size_bytes: i64) -> bool {
    &&& r.path@ == path
    &&& r.language == language_of_ext(extension(path))
    &&& r.last_modified == last_modified
    &&& r.size_bytes == size_bytes
    &&& r.workspace_id@ == Seq::<char>::empty()
}

/// The record of an entry of the tree: its path, its language by extension, and the
/// modification time and size the caller read; no workspace id.
pub fn file_ref_for(path: &str, last_modified: Option<Timestamp>, size_bytes: i64) -> (r: FileRef)
    ensures
        ref_made(r, path@, last_modified, size_bytes),
{
    FileRef {
        path: crate::text::string_from(path),
        language: detect_language(path),
        last_modified,
        size_bytes,
        workspace_id: String::new(),
    }
}

/// A file's node.
pub fn file_node(path: &str, last_modified: Option<Timestamp>, size_bytes: i64) -> (n: FileNode)
    ensures
        !n.is_directory,
        n.children@.len() == 0,
        n.file_ref matches Some(f) && ref_made(f, path@, last_modified, size_bytes),
{
    FileNode {
        file_ref: Some(file_ref_for(path, last_modified, size_bytes)),
        is_directory: false,
        children: Vec::new(),
    }
}

/// A directory's node: its entries in listing order (entries that take the same place keep
/// their order).
pub fn dir_node(
    path: &str,
    last_modified: Option<Timestamp>,
    size_bytes: i64,
    entries: Vec<FileNode>,
) -> (n: FileNode)
    ensures
        n.is_directory,
        n.children@.to_multiset() == entries@.to_multiset(),
        listing_ordered(n.children@),
        exists|p: Seq<int>| stable_reorder(p, entries@, n.children@),
        n.file_ref matches Some(f) && ref_made(f, path@, last_modified, size_bytes),
{
    FileNode {
        file_ref: Some(file_ref_for(path, last_modified, size_bytes)),
        is_directory: true,
        children: sort_listing(entries),
    }
}

/// Scans a workspace rooted at a directory.
pub struct WorkspaceScanner {
    root: String,
}

impl WorkspaceScanner {
    pub closed spec fn root_v(&self) -> Seq<char> {
        self.root@
    }

    pub fn new(root: &str) -> (s: Self)
        ensures
            s.root_v() == root@,
    {
        WorkspaceScanner { root: crate::text::string_from(root) }
    }

    /// The directory the scanner walks.
    pub fn root(&self) -> (r: &str)
        ensures
            r@ == self.root_v(),
    {
        self.root.as_str()
    }

    /// The scan result for the tree the caller built from the root, at the time it read:
    /// the numbers of files and directories in the tree (each capped at `usize::MAX`, then
    /// converted to `i32` as a cast does), and no errors.
    pub fn scan(&self, workspace_id: &str, root_node: FileNode, scanned_at: Timestamp) -> (r: ScanResult)
        ensures
            r.workspace_id@ == workspace_id@,
            r.total_files == cap(tree_counts(root_node).0) as i32,
            r.total_directories == cap(tree_counts(root_node).1) as i32,
            r.root == Some(root_node),
            r.scanned_at == Some(scanned_at),
            r.errors@.len() == 0,
    {
        let (files, dirs) = count_nodes(&root_node);
        ScanResult {
            workspace_id: crate::text::string_from(workspace_id),
            root: Some(root_node),
            total_files: files as i32,
            total_directories: dirs as i32,
            scanned_at: Some(scanned_at),
            errors: Vec::new(),
        }
    }
}

/// The scanning service's state: its scanner.
pub struct ScanServer {
    scanner: WorkspaceScanner,
}

impl ScanServer {
    pub closed spec fn root_v(&self) -> Seq<char> {
        self.scanner.root_v()
    }

    pub fn new(root: &str) -> (s: Self)
        ensures
            s.root_v() == root@,
    {
        ScanServer { scanner: WorkspaceScanner::new(root) }
    }

    /// The service's scanner.
    pub fn scanner(&self) -> (r: &WorkspaceScanner)
        ensures
            r.root_v() == self.root_v(),
    {
        &self.scanner
    }
}

} // verus!
