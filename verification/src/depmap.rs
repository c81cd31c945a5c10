//! Dependency maps: imports, uses and requires found in source text, as a graph from the
//! file to the modules it depends on.

use vstd::prelude::*;
use crate::records::{DependencyEdge, DependencyGraph, DependencyNode, EdgeKind, FileRef, Language};
use crate::stdtext::{file_stem, file_stem_of};
use crate::strs::{has_prefix, is_white, lemma_find_from, lemma_trim_padded, occurs_at, 
    after_prefix, before_first, before_first_str, contains_s, contains_str, find_s, is_char,
    lines, lines_of, split_whitespace, strip_prefix_str, trim_end_by, trim_end_char, trim_s,
    trim_str, words,
};
use crate::text::{chars_of, string_from};

verus! {

/// The second piece of `s` split at `c` (`s.split(c).nth(1)`), if `c` occurs.
pub open spec fn second_piece(s: Seq<char>, c: char) -> Option<Seq<char>> {
    match find_s(s, seq![c]) {
        Some(i) => Some(before_first(s.skip(i + 1), seq![c])),
        None => None,
    }
}

/// The first word of `s`, if any.
pub open spec fn first_word(s: Seq<char>) -> Option<Seq<char>> {
    if words(s).len() > 0 {
        Some(words(s)[0])
    } else {
        None
    }
}

/// The module a trimmed line imports, in a language's import syntax, if it imports one.
pub open spec fn import_of(t: Seq<char>, lang: Language) -> Option<Seq<char>> {
    match lang {
        Language::Python => {
            let r = if after_prefix(t, "import "@) is Some {
                after_prefix(t, "import "@)
            } else {
                after_prefix(t, "from "@)
            };
            match r {
                Some(r) => match first_word(r) {
                    Some(w) => Some(trim_end_by(w, is_char(','))),
                    None => None,
                },
                None => None,
            }
        },
        Language::Rust => match after_prefix(t, "use "@) {
            Some(r) => Some(trim_end_by(before_first(r, "::"@), is_char(';'))),
            None => match after_prefix(t, "extern crate "@) {
                Some(r) => Some(trim_end_by(r, is_char(';'))),
                None => None,
            },
        },
        Language::Javascript | Language::Typescript => if contains_s(t, "from \""@) || contains_s(
            t,
            "from '"@,
        ) {
            if second_piece(t, '"') is Some {
                second_piece(t, '"')
            } else {
                second_piece(t, '\'')
            }
        } else {
            None
        },
        Language::Java => match after_prefix(t, "import "@) {
            Some(r) => Some(trim_end_by(before_first(r, "."@), is_char(';'))),
            None => None,
        },
        Language::Haskell => match after_prefix(t, "import "@) {
            Some(r) => Some(
                match first_word(r) {
                    Some(w) => w,
                    None => Seq::empty(),
                },
            ),
            None => None,
        },
        _ => None,
    }
}

/// The non-empty imports of the lines, in order.
pub open spec fn imports_s(ls: Seq<Seq<char>>, lang: Language) -> Seq<Seq<char>>
    decreases ls.len(),
{
    if ls.len() == 0 {
        Seq::empty()
    } else {
        let prev = imports_s(ls.drop_last(), lang);
        match import_of(trim_s(ls.last()), lang) {
            Some(name) => if name.len() > 0 {
                prev.push(name)
            } else {
                prev
            },
            None => prev,
        }
    }
}

/// Each line with whitespace `pre[i]` before it and `post[i]` after it.
pub open spec fn padded_lines(ls: Seq<Seq<char>>, pre: Seq<Seq<char>>, post: Seq<Seq<char>>) -> Seq<
    Seq<char>,
> {
    Seq::new(ls.len(), |i: int| pre[i] + ls[i] + post[i])
}

/// Recognising imports ignores whitespace around each line: indenting a line, or leaving
/// spaces after it, does not change what it imports, so the imports of padded lines are
/// the imports of the lines themselves.
pub proof fn law_imports_ignore_padding(
    ls: Seq<Seq<char>>,
    pre: Seq<Seq<char>>,
    post: Seq<Seq<char>>,
    lang: Language,
)
    requires
        pre.len() == ls.len(),
        post.len() == ls.len(),
        forall|i: int, j: int| 0 <= i < ls.len() && 0 <= j < pre[i].len() ==> is_white(#[trigger] pre[i][j]),
        forall|i: int, j: int| 0 <= i < ls.len() && 0 <= j < post[i].len() ==> is_white(#[trigger] post[i][j]),
    ensures
        imports_s(padded_lines(ls, pre, post), lang) == imports_s(ls, lang),
    decreases ls.len(),
{
    if ls.len() > 0 {
        let n = ls.len() - 1;
        let l2 = ls.drop_last();
        let p2 = pre.drop_last();
        let q2 = post.drop_last();
        assert forall|i: int, j: int| 0 <= i < l2.len() && 0 <= j < p2[i].len() implies is_white(#[trigger] p2[i][j]) by {
            assert(p2[i] == pre[i]);
        }
        assert forall|i: int, j: int| 0 <= i < l2.len() && 0 <= j < q2[i].len() implies is_white(#[trigger] q2[i][j]) by {
            assert(q2[i] == post[i]);
        }
        law_imports_ignore_padding(l2, p2, q2, lang);
        let pl = padded_lines(ls, pre, post);
        assert(pl.drop_last() =~= padded_lines(ls.drop_last(), pre.drop_last(), post.drop_last()));
        assert forall|j: int| 0 <= j < pre[n].len() implies is_white(#[trigger] pre[n][j]) by {}
        assert forall|j: int| 0 <= j < post[n].len() implies is_white(#[trigger] post[n][j]) by {}
        lemma_trim_padded(pre[n], ls[n], post[n]);
        assert(pl.last() == pre[n] + ls[n] + post[n]);
    }
}

/// `s` holds no `c`.
pub open spec fn free_of(s: Seq<char>, c: char) -> bool {
    forall|i: int| 0 <= i < s.len() ==> s[i] != c
}

proof fn lemma_find_at_separator(n: Seq<char>, p: Seq<char>, rest: Seq<char>)
    requires
        p.len() > 0,
        free_of(n, p[0]),
    ensures
        find_s(n + p + rest, p) == Some(n.len() as int),
{
    let s = n + p + rest;
    let m = n.len() as int;
    assert(s.subrange(m, m + p.len()) =~= p);
    assert(occurs_at(s, p, m));
    lemma_find_from(s, p, 0);
    let r = find_s(s, p);
    assert(r is Some);
    let k = r->0;
    assert(occurs_at(s, p, k));
    assert(k <= m);
    if k < m {
        assert(s.subrange(k, k + p.len())[0] == p[0]);
        assert(s[k] == n[k]);
        assert(false);
    }
}

proof fn lemma_find_none(s: Seq<char>, p: Seq<char>)
    requires
        p.len() > 0,
        free_of(s, p[0]),
    ensures
        find_s(s, p) is None,
{
    lemma_find_from(s, p, 0);
    match find_s(s, p) {
        Some(k) => {
            assert(s.subrange(k, k + p.len())[0] == p[0]);
        },
        None => {},
    }
}

proof fn lemma_trim_end_free(n: Seq<char>, c: char)
    requires
        free_of(n, c),
    ensures
        trim_end_by(n, is_char(c)) == n,
        trim_end_by(n + seq![c], is_char(c)) == n,
{
    if n.len() > 0 {
        assert(n[n.len() - 1] != c);
    }
    assert(n.take(n.len() as int) =~= n);
    assert((n + seq![c]).drop_last() =~= n);
    assert((n + seq![c]).take(n.len() as int) =~= n);
}

proof fn lemma_after_prefix_cat(p: Seq<char>, x: Seq<char>)
    ensures
        after_prefix(p + x, p) == Some(x),
{
    assert((p + x).take(p.len() as int) =~= p);
    assert((p + x).skip(p.len() as int) =~= x);
}

/// A Rust `use` line imports the crate it names first: `use n::...` and `use n;` both
/// import `n`, for any name `n` without colons or semicolons.
pub proof fn law_rust_use_imports_crate(n: Seq<char>, rest: Seq<char>)
    requires
        free_of(n, ':'),
        free_of(n, ';'),
    ensures
        import_of("use "@ + n + "::"@ + rest, Language::Rust) == Some(n),
        import_of("use "@ + n + ";"@, Language::Rust) == Some(n),
{
    reveal_strlit("::");
    reveal_strlit(";");
    let a = n + "::"@ + rest;
    assert("use "@ + n + "::"@ + rest =~= "use "@ + a);
    lemma_after_prefix_cat("use "@, a);
    lemma_find_at_separator(n, "::"@, rest);
    assert(a.take(n.len() as int) =~= n);
    lemma_trim_end_free(n, ';');
    let b = n + ";"@;
    assert("use "@ + n + ";"@ =~= "use "@ + b);
    lemma_after_prefix_cat("use "@, b);
    assert(";"@ =~= seq![';']);
    assert(free_of(b, ':')) by {
        assert forall|i: int| 0 <= i < b.len() implies b[i] != ':' by {
            if i < n.len() {
                assert(b[i] == n[i]);
            }
        }
    }
    assert("::"@[0] == ':');
    lemma_find_none(b, "::"@);
}

/// A Rust `extern crate n;` line imports `n`, for any name without semicolons.
pub proof fn law_rust_extern_crate(n: Seq<char>)
    requires
        free_of(n, ';'),
    ensures
        import_of("extern crate "@ + n + ";"@, Language::Rust) == Some(n),
{
    reveal_strlit("use ");
    reveal_strlit("extern crate ");
    reveal_strlit(";");
    let t = "extern crate "@ + n + ";"@;
    let b = n + ";"@;
    assert(t =~= "extern crate "@ + b);
    lemma_after_prefix_cat("extern crate "@, b);
    assert(t[0] == 'e');
    assert(!has_prefix(t, "use "@)) by {
        if has_prefix(t, "use "@) {
            assert(t.subrange(0, 4)[0] == "use "@[0]);
        }
    }
    assert(";"@ =~= seq![';']);
    lemma_trim_end_free(n, ';');
}

/// A Java `import` line imports the first segment of the name: `import n.rest` imports
/// `n`, for any segment without dots or semicolons.
pub proof fn law_java_import_first_segment(n: Seq<char>, rest: Seq<char>)
    requires
        free_of(n, '.'),
        free_of(n, ';'),
    ensures
        import_of("import "@ + n + "."@ + rest, Language::Java) == Some(n),
{
    reveal_strlit(".");
    let a = n + "."@ + rest;
    assert("import "@ + n + "."@ + rest =~= "import "@ + a);
    lemma_after_prefix_cat("import "@, a);
    lemma_find_at_separator(n, "."@, rest);
    assert(a.take(n.len() as int) =~= n);
    lemma_trim_end_free(n, ';');
}

/// No character of `s` is whitespace.
pub open spec fn no_white(s: Seq<char>) -> bool {
    forall|i: int| 0 <= i < s.len() ==> !is_white(s[i])
}

proof fn lemma_single_word(n: Seq<char>)
    requires
        n.len() > 0,
        no_white(n),
    ensures
        words(n) == seq![n],
    decreases n.len(),
{
    let m = n.drop_last();
    if m.len() == 0 {
        assert(n =~= seq![n[0]]);
        assert(words(m) =~= Seq::<Seq<char>>::empty());
    } else {
        assert(no_white(m)) by {
            assert forall|i: int| 0 <= i < m.len() implies !is_white(m[i]) by {
                assert(m[i] == n[i]);
            }
        }
        lemma_single_word(m);
        assert(!is_white(n[n.len() - 2]));
        assert(m.push(n.last()) =~= n);
    }
}

proof fn lemma_first_word_before_space(n: Seq<char>, w: Seq<char>, j: int)
    requires
        n.len() > 0,
        no_white(n),
        w.len() > 0,
        is_white(w[0]),
        1 <= j <= w.len(),
    ensures
        words(n + w.take(j)).len() >= 1,
        words(n + w.take(j))[0] == n,
        words(n + w.take(j)).len() >= 2 || is_white((n + w.take(j)).last()),
    decreases j,
{
    let x = n + w.take(j);
    if j == 1 {
        lemma_single_word(n);
        assert(x.drop_last() =~= n);
        assert(x.last() == w[0]);
    } else {
        lemma_first_word_before_space(n, w, j - 1);
        let y = n + w.take(j - 1);
        assert(x.drop_last() =~= y);
        assert(x.last() == w[j - 1]);
        assert(x[x.len() - 2] == y.last());
    }
}

/// A Python `import n` line imports `n`, and a `from n ...` line imports `n`, for any
/// name `n` that is one word without commas.
pub proof fn law_python_imports(n: Seq<char>, rest: Seq<char>)
    requires
        n.len() > 0,
        no_white(n),
        free_of(n, ','),
    ensures
        import_of("import "@ + n, Language::Python) == Some(n),
        import_of("from "@ + n + " "@ + rest, Language::Python) == Some(n),
{
    reveal_strlit("import ");
    reveal_strlit("from ");
    reveal_strlit(" ");
    lemma_after_prefix_cat("import "@, n);
    lemma_single_word(n);
    lemma_trim_end_free(n, ',');
    let a = n + " "@ + rest;
    let t = "from "@ + n + " "@ + rest;
    assert(t =~= "from "@ + a);
    lemma_after_prefix_cat("from "@, a);
    assert(!has_prefix(t, "import "@)) by {
        if has_prefix(t, "import "@) {
            assert(t.take(7)[0] == "import "@[0]);
        }
    }
    let w = " "@ + rest;
    assert(a =~= n + w);
    assert(w.take(w.len() as int) =~= w);
    lemma_first_word_before_space(n, w, w.len() as int);
}

/// A byte-free view of a dependency node.
pub struct DepNodeV {
    pub id: Seq<char>,
    pub file: Option<FileRef>,
    pub symbol: Seq<char>,
    pub module: Seq<char>,
}

pub struct DepEdgeV {
    pub from_id: Seq<char>,
    pub to_id: Seq<char>,
    pub kind: EdgeKind,
}

pub open spec fn dep_nodes_v(v: Seq<DependencyNode>) -> Seq<DepNodeV> {
    v.map_values(
        |n: DependencyNode| DepNodeV { id: n.id@, file: n.file, symbol: n.symbol@, module: n.module@ },
    )
}

pub open spec fn dep_edges_v(v: Seq<DependencyEdge>) -> Seq<DepEdgeV> {
    v.map_values(|e: DependencyEdge| DepEdgeV { from_id: e.from_id@, to_id: e.to_id@, kind: e.kind })
}

/// The graph of a file: the file's own node first, then one node per import, and an
/// import edge from the file to each.
pub open spec fn graph_nodes_s(file_ref: FileRef, imports: Seq<Seq<char>>) -> Seq<DepNodeV> {
    seq![
        DepNodeV {
            id: file_ref.path@,
            file: Some(file_ref),
            symbol: Seq::empty(),
            module: file_stem(file_ref.path@),
        },
    ] + imports.map_values(
        |m: Seq<char>| DepNodeV { id: m, file: None, symbol: Seq::empty(), module: m },
    )
}

pub open spec fn graph_edges_s(file_ref: FileRef, imports: Seq<Seq<char>>) -> Seq<DepEdgeV> {
    imports.map_values(
        |m: Seq<char>| DepEdgeV { from_id: file_ref.path@, to_id: m, kind: EdgeKind::Import },
    )
}

/// The first word of `s`, if any.
fn first_word_str(s: &str) -> (r: Option<String>)
    ensures
        match r {
            Some(w) => first_word(s@) == Some(w@),
            None => first_word(s@) is None,
        },
{
    let ws = split_whitespace(s);
    if ws.len() > 0 {
        Some(ws[0].clone())
    } else {
        None
    }
}

/// The second piece of `s` split at `c`.
fn second_piece_str(s: &str, c: char) -> (r: Option<String>)
    ensures
        match r {
            Some(x) => second_piece(s@, c) == Some(x@),
            None => second_piece(s@, c) is None,
        },
{
    let cs = chars_of(s);
    let pat: [char; 1] = [c];
    assert(pat@ =~= seq![c]);
    match crate::strs::find_chars(cs.as_slice(), &pat) {
        Some(i) => {
            proof {
                crate::strs::lemma_find_from(s@, seq![c], 0);
            }
            let n = cs.len();
            assert(i < n);
            let rest = crate::strs::slice_string(cs.as_slice(), i + 1, n);
            assert(rest@ =~= s@.skip(i + 1));
            let mut one = String::new();
            crate::text::push_char(&mut one, c);
            assert(one@ =~= seq![c]);
            Some(before_first_str(rest.as_str(), one.as_str()))
        },
        None => None,
    }
}

/// The module a trimmed line imports, if any.
fn import_of_line(t: &str, lang: Language) -> (r: Option<String>)
    ensures
        match r {
            Some(x) => import_of(t@, lang) == Some(x@),
            None => import_of(t@, lang) is None,
        },
{
    match lang {
        Language::Python => {
            let r = match strip_prefix_str(t, "import ") {
                Some(x) => Some(x),
                None => strip_prefix_str(t, "from "),
            };
            match r {
                Some(r) => match first_word_str(r.as_str()) {
                    Some(w) => Some(trim_end_char(w.as_str(), ',')),
                    None => None,
                },
                None => None,
            }
        },
        Language::Rust => match strip_prefix_str(t, "use ") {
            Some(r) => {
                let head = before_first_str(r.as_str(), "::");
                Some(trim_end_char(head.as_str(), ';'))
            },
            None => match strip_prefix_str(t, "extern crate ") {
                Some(r) => Some(trim_end_char(r.as_str(), ';')),
                None => None,
            },
        },
        Language::Javascript | Language::Typescript => {
            if contains_str(t, "from \"") || contains_str(t, "from '") {
                match second_piece_str(t, '"') {
                    Some(x) => Some(x),
                    None => second_piece_str(t, '\''),
                }
            } else {
                None
            }
        },
        Language::Java => match strip_prefix_str(t, "import ") {
            Some(r) => {
                let head = before_first_str(r.as_str(), ".");
                Some(trim_end_char(head.as_str(), ';'))
            },
            None => None,
        },
        Language::Haskell => match strip_prefix_str(t, "import ") {
            Some(r) => match first_word_str(r.as_str()) {
                Some(w) => Some(w),
                None => Some(String::new()),
            },
            None => None,
        },
        _ => None,
    }
}

pub open spec fn strs_v(v: Seq<String>) -> Seq<Seq<char>> {
    v.map_values(|s: String| s@)
}

/// The imports found in source text, in order.
pub fn extract_imports(source: &str, lang: Language) -> (r: Vec<String>)
    ensures
        strs_v(r@) == imports_s(lines(source@), lang),
{
    let ls = lines_of(source);
    let ghost lv = lines(source@);
    assert(strs_v(ls@) =~= lv);
    let mut r: Vec<String> = Vec::new();
    let mut i: usize = 0;
    assert(lv.take(0) =~= Seq::<Seq<char>>::empty());
    while i < ls.len()
        invariant
            i <= ls@.len(),
            strs_v(ls@) == lv,
            strs_v(r@) == imports_s(lv.take(i as int), lang),
        decreases ls.len() - i,
    {
        assert(lv.take(i + 1).drop_last() =~= lv.take(i as int));
        assert(lv.take(i + 1).last() == ls@[i as int]@);
        let t = trim_str(ls[i].as_str());
        match import_of_line(t.as_str(), lang) {
            Some(name) => {
                if chars_of(name.as_str()).len() > 0 {
                    let ghost before = strs_v(r@);
                    r.push(name);
                    assert(strs_v(r@) =~= before.push(name@));
                } else {
                    proof {
                        assert(name@.len() == 0);
                    }
                }
            },
            None => {},
        }
        i = i + 1;
    }
    assert(lv.take(lv.len() as int) =~= lv);
    r
}

/// The module name of a path: its file stem.
pub fn module_name(path: &str) -> (r: String)
    ensures
        r@ == file_stem(path@),
{
    file_stem_of(path)
}

/// Resolves the imports of a file's source text into a dependency graph.
pub fn resolve(file_ref: &FileRef, source: &str) -> (g: DependencyGraph)
    ensures
        dep_nodes_v(g.nodes@) == graph_nodes_s(*file_ref, imports_s(lines(source@), file_ref.language)),
        dep_edges_v(g.edges@) == graph_edges_s(*file_ref, imports_s(lines(source@), file_ref.language)),
{
    let imports = extract_imports(source, file_ref.language);
    let ghost iv = strs_v(imports@);
    let mut nodes: Vec<DependencyNode> = Vec::new();
    nodes.push(
        DependencyNode {
            id: file_ref.path.clone(),
            file: Some(file_ref.duplicate()),
            symbol: String::new(),
            module: module_name(file_ref.path.as_str()),
        },
    );
    let mut edges: Vec<DependencyEdge> = Vec::new();
    let mut i: usize = 0;
    while i < imports.len()
        invariant
            i <= imports@.len(),
            iv == strs_v(imports@),
            dep_nodes_v(nodes@) == graph_nodes_s(*file_ref, iv.take(i as int)),
            dep_edges_v(edges@) == graph_edges_s(*file_ref, iv.take(i as int)),
        decreases imports.len() - i,
    {
        let imp = &imports[i];
        let ghost n0 = dep_nodes_v(nodes@);
        let ghost e0 = dep_edges_v(edges@);
        let node = DependencyNode {
            id: imp.clone(),
            file: None,
            symbol: String::new(),
            module: imp.clone(),
        };
        nodes.push(node);
        let edge = DependencyEdge { from_id: file_ref.path.clone(), to_id: imp.clone(), kind: EdgeKind::Import };
        edges.push(edge);
        let ghost m = iv[i as int];
        assert(iv.take(i + 1) =~= iv.take(i as int).push(m));
        assert(dep_nodes_v(nodes@) =~= n0.push(DepNodeV { id: m, file: None, symbol: Seq::empty(), module: m }));
        assert(dep_edges_v(edges@) =~= e0.push(DepEdgeV { from_id: file_ref.path@, to_id: m, kind: EdgeKind::Import }));
        assert(iv.take(i + 1).map_values(
            |m: Seq<char>| DepNodeV { id: m, file: None, symbol: Seq::empty(), module: m },
        ) =~= iv.take(i as int).map_values(
            |m: Seq<char>| DepNodeV { id: m, file: None, symbol: Seq::empty(), module: m },
        ).push(DepNodeV { id: m, file: None, symbol: Seq::empty(), module: m }));
        assert(dep_nodes_v(nodes@) =~= graph_nodes_s(*file_ref, iv.take(i + 1)));
        assert(dep_edges_v(edges@) =~= graph_edges_s(*file_ref, iv.take(i + 1)));
        i = i + 1;
    }
    assert(iv.take(iv.len() as int) =~= iv);
    DependencyGraph { nodes, edges }
}

/// What a dependency-map request targets.
#[derive(Debug, Clone)]
pub enum DepTarget {
    File(FileRef),
    SymbolQualifiedName(String),
}

/// Why a dependency-map request failed.
#[derive(Debug, Clone, PartialEq)]
pub enum DepMapError {
    NotFound(String),
    Unimplemented(String),
    InvalidArgument(String),
}

/// Answers dependency-map requests.
#[derive(Debug, Clone, Copy)]
pub struct DepMapServer;

impl DepMapServer {
    /// The file a request needs read, or why it cannot be answered: symbol-level maps are
    /// not implemented, and a request needs a target.
    pub fn file_to_read(&self, target: &Option<DepTarget>) -> (r: Result<FileRef, DepMapError>)
        ensures
            match target {
                Some(DepTarget::File(f)) => r == Ok::<FileRef, DepMapError>(*f),
                Some(DepTarget::SymbolQualifiedName(_)) => r matches Err(DepMapError::Unimplemented(m))
                    && m@ == "symbol-level dep map not yet implemented"@,
                None => r matches Err(DepMapError::InvalidArgument(m)) && m@ == "target is required"@,
            },
    {
        match target {
            Some(DepTarget::File(f)) => Ok(f.duplicate()),
            Some(DepTarget::SymbolQualifiedName(_)) => Err(
                DepMapError::Unimplemented(string_from("symbol-level dep map not yet implemented")),
            ),
            None => Err(DepMapError::InvalidArgument(string_from("target is required"))),
        }
    }

    /// The answer once the file has been read: its dependency graph, or not-found with the
    /// read error's message.
    pub fn respond(&self, file_ref: &FileRef, contents: Result<String, String>) -> (r: Result<
        DependencyGraph,
        DepMapError,
    >)
        ensures
            match contents {
                Ok(src) => r matches Ok(g) && dep_nodes_v(g.nodes@) == graph_nodes_s(
                    *file_ref,
                    imports_s(lines(src@), file_ref.language),
                ) && dep_edges_v(g.edges@) == graph_edges_s(
                    *file_ref,
                    imports_s(lines(src@), file_ref.language),
                ),
                Err(e) => r matches Err(DepMapError::NotFound(m)) && m@ == e@,
            },
    {
        match contents {
            Ok(src) => Ok(resolve(file_ref, src.as_str())),
            Err(e) => Err(DepMapError::NotFound(e)),
        }
    }
}

/// A file's dependency graph has one node more than it has edges: the file's own node
/// first, and for each import an edge from the file to the import's node.
pub proof fn law_graph_shape(file_ref: FileRef, imports: Seq<Seq<char>>)
    ensures
        graph_nodes_s(file_ref, imports).len() == graph_edges_s(file_ref, imports).len() + 1,
        graph_nodes_s(file_ref, imports)[0].id == file_ref.path@,
        forall|i: int| 0 <= i < graph_edges_s(file_ref, imports).len() ==> {
            &&& (#[trigger] graph_edges_s(file_ref, imports)[i]).from_id == file_ref.path@
            &&& graph_edges_s(file_ref, imports)[i].to_id == graph_nodes_s(file_ref, imports)[i + 1].id
            &&& graph_edges_s(file_ref, imports)[i].kind == EdgeKind::Import
        },
{
}

} // verus!
