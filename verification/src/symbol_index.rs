//! Builds index entries from raw source text with line-based heuristics that work across
//! languages without a language-specific syntax tree: a file header chunk, then one chunk
//! per line that opens a function or a type definition.

use vstd::prelude::*;
use vstd::utf8::encode_utf8;
use crate::digest::{hex_digest, hex_sha256, push_utf8};
use crate::records::{
    ChunkKind, FileRef, IndexEntry, IndexEntryV, Position, Span, SymbolKind, SymbolRecord,
    SymbolRecordV, Visibility,
};
use crate::stdtext::{alnum, file_stem, file_stem_of, is_alnum};
use crate::strs::{has_prefix, lead_count, lines, lines_of, slice_string, split_whitespace, starts_with, trail_count, trim_end_by, trim_s, trim_start_by, trim_start_s, trim_start_str, trim_str, words};
use crate::text::{chars_of, dec_digits, push_char, push_decimal, push_str, string_from};

verus! {

/// Line starts that open a function.
pub open spec fn fn_patterns() -> Seq<Seq<char>> {
    seq![
        "fn "@,
        "def "@,
        "function "@,
        "func "@,
        "fun "@,
        "sub "@,
        "method "@,
        "defn "@,
        "defun "@,
        "lambda "@,
        "proc "@,
    ]
}

/// Line starts that open a type definition.
pub open spec fn type_patterns() -> Seq<Seq<char>> {
    seq![
        "class "@,
        "struct "@,
        "interface "@,
        "trait "@,
        "enum "@,
        "type "@,
        "data "@,
        "newtype "@,
        "typedef "@,
        "impl "@,
    ]
}

pub open spec fn any_prefix(t: Seq<char>, ps: Seq<Seq<char>>) -> bool {
    exists|k: int| 0 <= k < ps.len() && has_prefix(t, #[trigger] ps[k])
}

/// What a trimmed line opens, if anything.
pub open spec fn classify(t: Seq<char>) -> Option<(ChunkKind, SymbolKind)> {
    if any_prefix(t, fn_patterns()) {
        Some((ChunkKind::Function, SymbolKind::Function))
    } else if any_prefix(t, type_patterns()) {
        Some((ChunkKind::TypeDef, SymbolKind::Type))
    } else {
        None
    }
}

/// Whether a trimmed line starts with a keyword that opens a function in one of the
/// indexed languages: `fn`, `def`, `function`, `func`, `fun`, `sub`, `method`, `defn`,
/// `defun`, `lambda` or `proc`, each followed by a space.
pub open spec fn opens_function(t: Seq<char>) -> bool {
    has_prefix(t, "fn "@) || has_prefix(t, "def "@) || has_prefix(t, "function "@) || has_prefix(
        t,
        "func "@,
    ) || has_prefix(t, "fun "@) || has_prefix(t, "sub "@) || has_prefix(t, "method "@) || has_prefix(
        t,
        "defn "@,
    ) || has_prefix(t, "defun "@) || has_prefix(t, "lambda "@) || has_prefix(t, "proc "@)
}

/// Whether a trimmed line starts with a keyword that opens a type definition: `class`,
/// `struct`, `interface`, `trait`, `enum`, `type`, `data`, `newtype`, `typedef` or `impl`,
/// each followed by a space.
pub open spec fn opens_type(t: Seq<char>) -> bool {
    has_prefix(t, "class "@) || has_prefix(t, "struct "@) || has_prefix(t, "interface "@)
        || has_prefix(t, "trait "@) || has_prefix(t, "enum "@) || has_prefix(t, "type "@)
        || has_prefix(t, "data "@) || has_prefix(t, "newtype "@) || has_prefix(t, "typedef "@)
        || has_prefix(t, "impl "@)
}

/// How a trimmed line is classified: a function definition exactly when it starts with a
/// function keyword; otherwise a type definition exactly when it starts with a type
/// keyword; otherwise no definition. So `def f():` opens a Python function and
/// `class C:` a type.
pub proof fn law_classify(t: Seq<char>)
    ensures
        opens_function(t) ==> classify(t) == Some((ChunkKind::Function, SymbolKind::Function)),
        !opens_function(t) && opens_type(t) ==> classify(t) == Some((ChunkKind::TypeDef, SymbolKind::Type)),
        !opens_function(t) && !opens_type(t) ==> classify(t) is None,
{
    let f = fn_patterns();
    let y = type_patterns();
    assert(f[0] == "fn "@ && f[1] == "def "@ && f[2] == "function "@ && f[3] == "func "@);
    assert(f[4] == "fun "@ && f[5] == "sub "@ && f[6] == "method "@ && f[7] == "defn "@);
    assert(f[8] == "defun "@ && f[9] == "lambda "@ && f[10] == "proc "@ && f.len() == 11);
    assert(y[0] == "class "@ && y[1] == "struct "@ && y[2] == "interface "@ && y[3] == "trait "@);
    assert(y[4] == "enum "@ && y[5] == "type "@ && y[6] == "data "@ && y[7] == "newtype "@);
    assert(y[8] == "typedef "@ && y[9] == "impl "@ && y.len() == 10);
    if opens_function(t) {
        if has_prefix(t, f[0]) {
        } else if has_prefix(t, f[1]) {
        } else if has_prefix(t, f[2]) {
        } else if has_prefix(t, f[3]) {
        } else if has_prefix(t, f[4]) {
        } else if has_prefix(t, f[5]) {
        } else if has_prefix(t, f[6]) {
        } else if has_prefix(t, f[7]) {
        } else if has_prefix(t, f[8]) {
        } else if has_prefix(t, f[9]) {
        } else {
            assert(has_prefix(t, f[10]));
        }
        assert(any_prefix(t, f));
    } else {
        assert(!any_prefix(t, f)) by {
            if any_prefix(t, f) {
                let k = choose|k: int| 0 <= k < f.len() && has_prefix(t, #[trigger] f[k]);
                assert(0 <= k < 11);
            }
        }
        if opens_type(t) {
            if has_prefix(t, y[0]) {
            } else if has_prefix(t, y[1]) {
            } else if has_prefix(t, y[2]) {
            } else if has_prefix(t, y[3]) {
            } else if has_prefix(t, y[4]) {
            } else if has_prefix(t, y[5]) {
            } else if has_prefix(t, y[6]) {
            } else if has_prefix(t, y[7]) {
            } else if has_prefix(t, y[8]) {
            } else {
                assert(has_prefix(t, y[9]));
            }
            assert(any_prefix(t, y));
        } else {
            assert(!any_prefix(t, y)) by {
                if any_prefix(t, y) {
                    let k = choose|k: int| 0 <= k < y.len() && has_prefix(t, #[trigger] y[k]);
                    assert(0 <= k < 10);
                }
            }
        }
    }
}

/// Neither alphanumeric nor an underscore.
pub open spec fn non_word() -> spec_fn(char) -> bool {
    |c: char| !alnum(c) && c != '_'
}

/// A definition's name: the second word of the line, without trailing punctuation.
pub open spec fn name_of(t: Seq<char>) -> Seq<char> {
    let w = if words(t).len() > 1 {
        words(t)[1]
    } else {
        Seq::empty()
    };
    trim_end_by(w, non_word())
}

/// The change of bracket depth over a line: `{` and `(` open, `}` and `)` close.
pub open spec fn depth_delta(line: Seq<char>) -> int
    decreases line.len(),
{
    if line.len() == 0 {
        0
    } else {
        depth_delta(line.drop_last()) + (if line.last() == '{' || line.last() == '(' {
            1int
        } else if line.last() == '}' || line.last() == ')' {
            -1int
        } else {
            0int
        })
    }
}

/// Where a block that opens on line `start` ends, scanning from line `i` at depth `depth`:
/// the first line after `start` at which the depth is back to zero or below; failing that,
/// thirty lines on, or the last line.
pub open spec fn block_end_from(ls: Seq<Seq<char>>, start: int, i: int, depth: int) -> int
    decreases ls.len() - i,
{
    if i < 0 || i >= ls.len() {
        if start + 30 < ls.len() - 1 {
            start + 30
        } else if ls.len() == 0 {
            0
        } else {
            ls.len() - 1
        }
    } else {
        let d = depth + depth_delta(ls[i]);
        if d <= 0 && i > start {
            i
        } else {
            block_end_from(ls, start, i + 1, d)
        }
    }
}

pub open spec fn block_end(ls: Seq<Seq<char>>, start: int) -> int {
    block_end_from(ls, start, start, 0)
}

/// A comment line: starts with `//`, `#`, `--` or `;;`.
pub open spec fn is_comment(t: Seq<char>) -> bool {
    has_prefix(t, "//"@) || has_prefix(t, "#"@) || has_prefix(t, "--"@) || has_prefix(t, ";;"@)
}

/// Comment markers.
pub open spec fn comment_mark() -> spec_fn(char) -> bool {
    |c: char| c == '/' || c == '#' || c == '-' || c == ';'
}

/// A comment line's text: markers and surrounding whitespace removed.
pub open spec fn comment_text(t: Seq<char>) -> Seq<char> {
    trim_s(trim_start_by(t, comment_mark()))
}

/// The comment lines directly above line `j` (inclusive), top to bottom, never reaching
/// line 0.
pub open spec fn doc_from(ls: Seq<Seq<char>>, j: int) -> Seq<Seq<char>>
    decreases j,
{
    if j <= 0 || j >= ls.len() || !is_comment(trim_s(ls[j])) {
        Seq::empty()
    } else {
        doc_from(ls, j - 1).push(comment_text(trim_s(ls[j])))
    }
}

/// Lines joined with newlines.
pub open spec fn join_nl(s: Seq<Seq<char>>) -> Seq<char>
    decreases s.len(),
{
    if s.len() == 0 {
        Seq::empty()
    } else if s.len() == 1 {
        s[0]
    } else {
        join_nl(s.drop_last()) + seq!['\n'] + s.last()
    }
}

/// The doc comment of a definition on line `i`.
pub open spec fn doc_comment_s(ls: Seq<Seq<char>>, i: int) -> Seq<char> {
    join_nl(doc_from(ls, if i > 0 { i - 1 } else { 0 }))
}

/// Importance in thousandths: by chunk kind, one tenth more for a public symbol, at most one.
pub open spec fn importance(kind: ChunkKind, public_symbol: bool) -> u32 {
    let base: u32 = match kind {
        ChunkKind::Function => 700,
        ChunkKind::TypeDef => 800,
        ChunkKind::Module => 900,
        ChunkKind::FileHeader => 500,
        ChunkKind::ImportBlock => 400,
        ChunkKind::Test => 600,
        ChunkKind::MacroDef => 750,
        ChunkKind::Unspecified => 300,
    };
    if public_symbol {
        if base + 100 > 1000 {
            1000
        } else {
            (base + 100) as u32
        }
    } else {
        base
    }
}

/// The text of lines `start..=end` (as far as there are lines), joined with newlines.
pub open spec fn chunk_text(ls: Seq<Seq<char>>, start: int, end: int) -> Seq<char> {
    let hi = if end + 1 < ls.len() {
        end + 1
    } else {
        ls.len() as int
    };
    join_nl(ls.subrange(start, hi))
}

/// An entry's id: the digest of the workspace id, the path and the start line.
pub open spec fn entry_id(workspace_id: Seq<char>, path: Seq<char>, start: nat) -> Seq<char> {
    hex_digest(encode_utf8(workspace_id) + encode_utf8(path) + encode_utf8(dec_digits(start)))
}

/// The entry for lines `start..=end` of a file.
pub open spec fn entry_s(
    workspace_id: Seq<char>,
    file_ref: FileRef,
    ls: Seq<Seq<char>>,
    start: nat,
    end: nat,
    kind: ChunkKind,
    symbol: Option<SymbolRecordV>,
) -> IndexEntryV {
    let raw = chunk_text(ls, start as int, end as int);
    IndexEntryV {
        id: entry_id(workspace_id, file_ref.path@, start),
        workspace_id,
        file_ref: Some(file_ref),
        span: Some(
            Span {
                start: Some(Position { line: start as i32, column: 0, byte_offset: 0 }),
                end: Some(Position { line: end as i32, column: 0, byte_offset: 0 }),
            },
        ),
        chunk_kind: kind,
        symbol_record: symbol,
        content_hash: hex_digest(encode_utf8(raw)),
        embedding_id: Seq::empty(),
        tokens: (encode_utf8(raw).len() / 4) as i32,
        importance_milli: importance(
            kind,
            match symbol {
                Some(s) => s.visibility == Visibility::Public,
                None => false,
            },
        ),
        last_indexed: None,
        raw_content: raw,
    }
}

/// The symbol record for a definition on line `i`.
pub open spec fn symbol_s(file_ref: FileRef, ls: Seq<Seq<char>>, i: int) -> SymbolRecordV {
    let t = trim_start_s(ls[i]);
    SymbolRecordV {
        name: name_of(t),
        qualified_name: file_stem(file_ref.path@) + "::"@ + name_of(t),
        kind: (classify(t)->0).1,
        visibility: Visibility::Public,
        signature: if lines(t).len() > 0 {
            lines(t)[0]
        } else {
            Seq::empty()
        },
        doc_comment: doc_comment_s(ls, i),
        defined_at: Some(file_ref),
        references: Seq::empty(),
    }
}

/// The entry for a definition on line `i`.
pub open spec fn symbol_entry_s(
    workspace_id: Seq<char>,
    file_ref: FileRef,
    ls: Seq<Seq<char>>,
    i: int,
) -> IndexEntryV {
    let t = trim_start_s(ls[i]);
    entry_s(
        workspace_id,
        file_ref,
        ls,
        i as nat,
        block_end(ls, i) as nat,
        (classify(t)->0).0,
        Some(symbol_s(file_ref, ls, i)),
    )
}

/// The entries for definitions among lines `0..n`, in line order.
pub open spec fn symbol_entries_s(
    workspace_id: Seq<char>,
    file_ref: FileRef,
    ls: Seq<Seq<char>>,
    n: int,
) -> Seq<IndexEntryV>
    decreases n,
{
    if n <= 0 || n > ls.len() {
        Seq::empty()
    } else {
        let prev = symbol_entries_s(workspace_id, file_ref, ls, n - 1);
        if classify(trim_start_s(ls[n - 1])) is Some {
            prev.push(symbol_entry_s(workspace_id, file_ref, ls, n - 1))
        } else {
            prev
        }
    }
}

/// All entries of a file: the header (its first twenty ls) if it has any line, then one
/// entry per definition.
pub open spec fn index_file_s(workspace_id: Seq<char>, file_ref: FileRef, source: Seq<char>) -> Seq<
    IndexEntryV,
> {
    let ls = lines(source);
    let header_end: int = if ls.len() < 20 {
        ls.len() as int
    } else {
        20
    };
    let header = if header_end > 0 {
        seq![entry_s(workspace_id, file_ref, ls, 0, (header_end - 1) as nat, ChunkKind::FileHeader, None)]
    } else {
        Seq::empty()
    };
    header + symbol_entries_s(workspace_id, file_ref, ls, ls.len() as int)
}

/// Builds index entries from source text.
pub struct SymbolIndexer;

pub open spec fn entries_v(v: Seq<IndexEntry>) -> Seq<IndexEntryV> {
    v.map_values(|e: IndexEntry| e@)
}

pub open spec fn line_strs_v(v: Seq<String>) -> Seq<Seq<char>> {
    v.map_values(|s: String| s@)
}

/// The source fits the index's counters.
pub open spec fn indexable(source: Seq<char>) -> bool {
    source.len() < 0x3fff_ffff_ffff_ffff
}

impl SymbolIndexer {
    pub fn index_file(&self, file_ref: &FileRef, source: &str, workspace_id: &str) -> (r: Vec<
        IndexEntry,
    >)
        requires
            indexable(source@),
        ensures
            entries_v(r@) == index_file_s(workspace_id@, *file_ref, source@),
    {
        let ls = lines_of(source);
        let ghost lv = lines(source@);
        assert(line_strs_v(ls@) =~= lv);
        proof {
            lemma_lines_len(source@);
        }
        assert(indexable_lines(line_strs_v(ls@)));
        let mut entries: Vec<IndexEntry> = Vec::new();
        let header_end: usize = if ls.len() < 20 {
            ls.len()
        } else {
            20
        };
        if header_end > 0 {
            entries.push(
                self.make_entry(
                    workspace_id,
                    file_ref,
                    &ls,
                    0,
                    header_end - 1,
                    ChunkKind::FileHeader,
                    None,
                ),
            );
        }
        let ghost head = entries_v(entries@);
        assert(head =~= index_file_s(workspace_id@, *file_ref, source@).take(head.len() as int));
        let mut i: usize = 0;
        while i < ls.len()
            invariant
                i <= ls@.len(),
                line_strs_v(ls@) == lv,
                lv == lines(source@),
                lv.len() <= source@.len() + 1,
                indexable(source@),
                indexable_lines(lv),
                entries_v(entries@) == head + symbol_entries_s(workspace_id@, *file_ref, lv, i as int),
            decreases ls.len() - i,
        {
            let t = trim_start_str(ls[i].as_str());
            let kind = classify_line(t.as_str());
            match kind {
                Some((chunk, sym_kind)) => {
                    let e = self.symbol_entry(workspace_id, file_ref, &ls, i, t, chunk, sym_kind);
                    let ghost ev = entries_v(entries@);
                    entries.push(e);
                    assert(entries_v(entries@) =~= ev.push(e@));
                },
                None => {},
            }
            i = i + 1;
        }
        entries
    }

    fn symbol_entry(
        &self,
        workspace_id: &str,
        file_ref: &FileRef,
        ls: &Vec<String>,
        i: usize,
        t: String,
        chunk: ChunkKind,
        sym_kind: SymbolKind,
    ) -> (e: IndexEntry)
        requires
            i < ls@.len(),
            indexable_lines(line_strs_v(ls@)),
            t@ == trim_start_s(ls@[i as int]@),
            classify(t@) == Some((chunk, sym_kind)),
        ensures
            e@ == symbol_entry_s(workspace_id@, *file_ref, line_strs_v(ls@), i as int),
    {
        let ghost lv = line_strs_v(ls@);
        assert(lv[i as int] == ls@[i as int]@);
        let name = extract_name(t.as_str());
        let end = find_block_end(ls, i);
        let stem = file_stem_of(file_ref.path.as_str());
        let mut qualified = stem;
        push_str(&mut qualified, "::");
        push_str(&mut qualified, name.as_str());
        let sig_lines = lines_of(t.as_str());
        let signature = if sig_lines.len() > 0 {
            sig_lines[0].clone()
        } else {
            String::new()
        };
        let record = SymbolRecord {
            name,
            qualified_name: qualified,
            kind: sym_kind,
            visibility: Visibility::Public,
            signature,
            doc_comment: extract_doc_comment(ls, i),
            defined_at: Some(file_ref.duplicate()),
            references: Vec::new(),
        };
        assert(record@ == symbol_s(*file_ref, lv, i as int));
        self.make_entry(workspace_id, file_ref, ls, i, end, chunk, Some(record))
    }

    fn make_entry(
        &self,
        workspace_id: &str,
        file_ref: &FileRef,
        ls: &Vec<String>,
        start_line: usize,
        end_line: usize,
        chunk_kind: ChunkKind,
        symbol: Option<SymbolRecord>,
    ) -> (e: IndexEntry)
        requires
            start_line <= end_line,
            start_line < ls@.len(),
            indexable_lines(line_strs_v(ls@)),
        ensures
            e@ == entry_s(
                workspace_id@,
                *file_ref,
                line_strs_v(ls@),
                start_line as nat,
                end_line as nat,
                chunk_kind,
                match symbol {
                    Some(s) => Some(s@),
                    None => None,
                },
            ),
    {
        let raw_content = join_lines(ls, start_line, end_line);
        let mut raw_bytes: Vec<u8> = Vec::new();
        push_utf8(&mut raw_bytes, raw_content.as_str());
        assert(raw_bytes@ =~= encode_utf8(raw_content@));
        let content_hash = hex_sha256(raw_bytes.as_slice());
        let mut id_bytes: Vec<u8> = Vec::new();
        push_utf8(&mut id_bytes, workspace_id);
        push_utf8(&mut id_bytes, file_ref.path.as_str());
        let mut line_text = String::new();
        push_decimal(&mut line_text, start_line as u64);
        push_utf8(&mut id_bytes, line_text.as_str());
        let id = hex_sha256(id_bytes.as_slice());
        let n = raw_bytes.len();
        let tokens = (n / 4) as i32;
        let public = match &symbol {
            Some(s) => match s.visibility {
                Visibility::Public => true,
                _ => false,
            },
            None => false,
        };
        IndexEntry {
            id,
            workspace_id: string_from(workspace_id),
            file_ref: Some(file_ref.duplicate()),
            span: Some(
                Span {
                    start: Some(Position { line: start_line as i32, column: 0, byte_offset: 0 }),
                    end: Some(Position { line: end_line as i32, column: 0, byte_offset: 0 }),
                },
            ),
            chunk_kind,
            symbol_record: symbol,
            content_hash,
            embedding_id: String::new(),
            tokens,
            importance_milli: compute_importance(chunk_kind, public),
            last_indexed: None,
            raw_content,
        }
    }
}

pub open spec fn indexable_lines(lv: Seq<Seq<char>>) -> bool {
    lv.len() < 0x4000_0000_0000_0000 && forall|i: int| 0 <= i < lv.len() ==> (#[trigger] lv[i]).len()
        < 0x4000_0000_0000_0000
}

proof fn lemma_split_nl_bounds(s: Seq<char>)
    ensures
        crate::strs::split_nl(s).len() <= s.len() + 1,
        forall|i: int| 0 <= i < crate::strs::split_nl(s).len() ==> (
        #[trigger] crate::strs::split_nl(s)[i]).len() <= s.len(),
    decreases s.len(),
{
    if s.len() > 0 {
        lemma_split_nl_bounds(s.drop_last());
        crate::strs::lemma_split_nl_nonempty(s.drop_last());
    }
}

proof fn lemma_lines_len(s: Seq<char>)
    ensures
        lines(s).len() <= s.len() + 1,
        forall|i: int| 0 <= i < lines(s).len() ==> (#[trigger] lines(s)[i]).len() <= s.len(),
{
    lemma_split_nl_bounds(s);
    crate::strs::lemma_split_nl_nonempty(s);
}

/// The kind of chunk and symbol a trimmed line opens, if any.
fn classify_line(t: &str) -> (r: Option<(ChunkKind, SymbolKind)>)
    ensures
        r == classify(t@),
{
    let cs = chars_of(t);
    let fns: [&str; 11] = [
        "fn ",
        "def ",
        "function ",
        "func ",
        "fun ",
        "sub ",
        "method ",
        "defn ",
        "defun ",
        "lambda ",
        "proc ",
    ];
    let types: [&str; 10] = [
        "class ",
        "struct ",
        "interface ",
        "trait ",
        "enum ",
        "type ",
        "data ",
        "newtype ",
        "typedef ",
        "impl ",
    ];
    assert(fns@.map_values(|p: &str| p@) =~= fn_patterns());
    assert(types@.map_values(|p: &str| p@) =~= type_patterns());
    if starts_with_any(cs.as_slice(), &fns) {
        return Some((ChunkKind::Function, SymbolKind::Function));
    }
    if starts_with_any(cs.as_slice(), &types) {
        return Some((ChunkKind::TypeDef, SymbolKind::Type));
    }
    None
}

fn starts_with_any(cs: &[char], ps: &[&str]) -> (b: bool)
    ensures
        b == any_prefix(cs@, ps@.map_values(|p: &str| p@)),
{
    let ghost pv = ps@.map_values(|p: &str| p@);
    let mut k: usize = 0;
    while k < ps.len()
        invariant
            k <= ps@.len(),
            pv == ps@.map_values(|p: &str| p@),
            forall|j: int| 0 <= j < k ==> !has_prefix(cs@, #[trigger] pv[j]),
        decreases ps.len() - k,
    {
        let pc = chars_of(ps[k]);
        if starts_with(cs, pc.as_slice()) {
            assert(has_prefix(cs@, pv[k as int]));
            return true;
        }
        k = k + 1;
    }
    false
}

/// The name on a definition line.
fn extract_name(t: &str) -> (r: String)
    ensures
        r@ == name_of(t@),
{
    let ws = split_whitespace(t);
    let w: Vec<char> = if ws.len() > 1 {
        chars_of(ws[1].as_str())
    } else {
        Vec::new()
    };
    assert(ws@.len() <= 1 ==> w@ =~= Seq::<char>::empty());
    let mut j: usize = w.len();
    let ghost wv = w@;
    assert(wv.take(j as int) =~= wv);
    while j > 0 && !is_alnum(w[j - 1]) && w[j - 1] != '_'
        invariant
            j <= wv.len(),
            wv == w@,
            trail_count(wv, non_word()) == (wv.len() - j) + trail_count(wv.take(j as int), non_word()),
        decreases j,
    {
        assert(wv.take(j as int).drop_last() =~= wv.take(j - 1));
        j = j - 1;
    }
    if j > 0 {
        assert(wv.take(j as int).last() == wv[j - 1]);
    }
    slice_string(w.as_slice(), 0, j)
}

/// The change of bracket depth over one line.
fn line_delta(line: &str) -> (d: i64)
    requires
        line@.len() < 0x4000_0000_0000_0000,
    ensures
        d == depth_delta(line@),
        -(line@.len() as int) <= d <= line@.len(),
{
    let cs = chars_of(line);
    let mut d: i64 = 0;
    let mut i: usize = 0;
    assert(line@.take(0) =~= Seq::<char>::empty());
    while i < cs.len()
        invariant
            i <= cs@.len(),
            cs@ == line@,
            line@.len() < 0x4000_0000_0000_0000,
            d == depth_delta(line@.take(i as int)),
            -(i as int) <= d <= i,
        decreases cs.len() - i,
    {
        assert(line@.take(i + 1).drop_last() =~= line@.take(i as int));
        let c = cs[i];
        if c == '{' || c == '(' {
            d = d + 1;
        } else if c == '}' || c == ')' {
            d = d - 1;
        }
        i = i + 1;
    }
    assert(line@.take(cs@.len() as int) =~= line@);
    d
}

/// Where the block opened on line `start` ends.
fn find_block_end(ls: &Vec<String>, start: usize) -> (end: usize)
    requires
        start < ls@.len(),
        indexable_lines(line_strs_v(ls@)),
    ensures
        end == block_end(line_strs_v(ls@), start as int),
        start <= end < ls@.len(),
{
    let ghost lv = line_strs_v(ls@);
    let mut depth: i128 = 0;
    let mut i: usize = start;
    while i < ls.len()
        invariant
            start <= i <= ls@.len(),
            lv == line_strs_v(ls@),
            indexable_lines(lv),
            block_end(lv, start as int) == block_end_from(lv, start as int, i as int, depth as int),
            -((i - start) * 0x4000_0000_0000_0000) <= depth <= (i - start) * 0x4000_0000_0000_0000,
        decreases ls.len() - i,
    {
        assert(lv[i as int] == ls@[i as int]@);
        let d = line_delta(ls[i].as_str());
        assert(-0x4000_0000_0000_0000 <= d <= 0x4000_0000_0000_0000);
        depth = depth + d as i128;
        if depth <= 0 && i > start {
            return i;
        }
        i = i + 1;
    }
    let n = ls.len();
    if n >= 31 && start < n - 31 {
        start + 30
    } else {
        n - 1
    }
}

/// The comment lines directly above line `i`, joined with newlines.
fn extract_doc_comment(ls: &Vec<String>, fn_line: usize) -> (r: String)
    requires
        fn_line < ls@.len(),
    ensures
        r@ == doc_comment_s(line_strs_v(ls@), fn_line as int),
{
    let ghost lv = line_strs_v(ls@);
    let mut j: usize = if fn_line > 0 {
        fn_line - 1
    } else {
        0
    };
    let ghost j0 = j as int;
    let mut doc: Vec<String> = Vec::new();
    assert(doc_from(lv, j0) == doc_from(lv, j as int) + line_strs_v(doc@)) by {
        assert(line_strs_v(doc@) =~= Seq::<Seq<char>>::empty());
        assert(doc_from(lv, j0) + Seq::<Seq<char>>::empty() =~= doc_from(lv, j0));
    }
    while j > 0 && comment_line(ls, j)
        invariant
            j <= j0 < ls@.len(),
            lv == line_strs_v(ls@),
            doc_from(lv, j0) == doc_from(lv, j as int) + line_strs_v(doc@).reverse(),
        decreases j,
    {
        assert(lv[j as int] == ls@[j as int]@);
        let t = trim_str(ls[j].as_str());
        let text = comment_text_of(t.as_str());
        let ghost before = line_strs_v(doc@);
        doc.push(text);
        assert(line_strs_v(doc@) =~= before.push(text@));
        assert(line_strs_v(doc@).reverse() =~= seq![text@] + before.reverse());
        assert(doc_from(lv, j as int) == doc_from(lv, j - 1).push(text@));
        assert(doc_from(lv, j - 1).push(text@) + before.reverse() =~= doc_from(lv, j - 1) + (seq![text@] + before.reverse()));
        j = j - 1;
    }
    let ghost rv = line_strs_v(doc@).reverse();
    assert(doc_from(lv, j as int) =~= Seq::<Seq<char>>::empty());
    assert(doc_from(lv, j0) =~= rv);
    let mut top: Vec<String> = Vec::new();
    let mut k: usize = doc.len();
    while k > 0
        invariant
            k <= doc@.len(),
            line_strs_v(top@) == line_strs_v(doc@).reverse().take((doc@.len() - k) as int),
        decreases k,
    {
        let ghost before = line_strs_v(top@);
        assert(line_strs_v(doc@).reverse()[(doc@.len() - k) as int] == doc@[k - 1]@);
        let x = doc[k - 1].clone();
        top.push(x);
        assert(line_strs_v(top@) =~= before.push(x@));
        assert(line_strs_v(doc@).reverse().take((doc@.len() - k + 1) as int) =~= line_strs_v(
            doc@,
        ).reverse().take((doc@.len() - k) as int).push(line_strs_v(doc@).reverse()[(doc@.len() - k) as int]));
        k = k - 1;
    }
    assert(line_strs_v(doc@).reverse().take(doc@.len() as int) =~= rv);
    join_range(&top, 0, top.len())
}

/// Whether line `j`, trimmed, is a comment line.
fn comment_line(ls: &Vec<String>, j: usize) -> (b: bool)
    requires
        j < ls@.len(),
    ensures
        b == is_comment(trim_s(line_strs_v(ls@)[j as int])),
{
    let t = trim_str(ls[j].as_str());
    let tc = chars_of(t.as_str());
    let slash2: [char; 2] = ['/', '/'];
    let hash: [char; 1] = ['#'];
    let dash2: [char; 2] = ['-', '-'];
    let semi2: [char; 2] = [';', ';'];
    proof {
        reveal_strlit("//");
        reveal_strlit("#");
        reveal_strlit("--");
        reveal_strlit(";;");
        assert(slash2@ =~= "//"@);
        assert(hash@ =~= "#"@);
        assert(dash2@ =~= "--"@);
        assert(semi2@ =~= ";;"@);
    }
    starts_with(tc.as_slice(), &slash2) || starts_with(tc.as_slice(), &hash) || starts_with(
        tc.as_slice(),
        &dash2,
    ) || starts_with(tc.as_slice(), &semi2)
}

/// A comment line's text.
fn comment_text_of(t: &str) -> (r: String)
    ensures
        r@ == comment_text(t@),
{
    let cs = chars_of(t);
    let mut i: usize = 0;
    assert(cs@.skip(0) =~= cs@);
    while i < cs.len() && (cs[i] == '/' || cs[i] == '#' || cs[i] == '-' || cs[i] == ';')
        invariant
            i <= cs@.len(),
            cs@ == t@,
            lead_count(t@, comment_mark()) == i + lead_count(t@.skip(i as int), comment_mark()),
        decreases cs.len() - i,
    {
        assert(t@.skip(i as int).drop_first() =~= t@.skip(i + 1));
        i = i + 1;
    }
    if i < cs.len() {
        assert(t@.skip(i as int)[0] == cs@[i as int]);
    }
    let rest = slice_string(cs.as_slice(), i, cs.len());
    trim_str(rest.as_str())
}

/// Lines `from..to` joined with newlines.
fn join_range(ls: &Vec<String>, from: usize, to: usize) -> (r: String)
    requires
        from <= to <= ls@.len(),
    ensures
        r@ == join_nl(line_strs_v(ls@).subrange(from as int, to as int)),
{
    let ghost lv = line_strs_v(ls@);
    let mut r = String::new();
    let mut i: usize = from;
    assert(lv.subrange(from as int, from as int) =~= Seq::<Seq<char>>::empty());
    while i < to
        invariant
            from <= i <= to <= ls@.len(),
            lv == line_strs_v(ls@),
            r@ == join_nl(lv.subrange(from as int, i as int)),
        decreases to - i,
    {
        assert(lv.subrange(from as int, i + 1).drop_last() =~= lv.subrange(from as int, i as int));
        assert(lv[i as int] == ls@[i as int]@);
        if i > from {
            push_char(&mut r, '\n');
        }
        push_str(&mut r, ls[i].as_str());
        i = i + 1;
    }
    r
}

/// The text of lines `start..=end`, as far as there are lines.
fn join_lines(ls: &Vec<String>, start: usize, end: usize) -> (r: String)
    requires
        start <= end,
        start < ls@.len(),
    ensures
        r@ == chunk_text(line_strs_v(ls@), start as int, end as int),
{
    let hi = if end < ls.len() - 1 {
        end + 1
    } else {
        ls.len()
    };
    join_range(ls, start, hi)
}

fn compute_importance(kind: ChunkKind, public_symbol: bool) -> (m: u32)
    ensures
        m == importance(kind, public_symbol),
{
    let base: u32 = match kind {
        ChunkKind::Function => 700,
        ChunkKind::TypeDef => 800,
        ChunkKind::Module => 900,
        ChunkKind::FileHeader => 500,
        ChunkKind::ImportBlock => 400,
        ChunkKind::Test => 600,
        ChunkKind::MacroDef => 750,
        ChunkKind::Unspecified => 300,
    };
    if public_symbol {
        if base + 100 > 1000 {
            1000
        } else {
            base + 100
        }
    } else {
        base
    }
}

proof fn lemma_block_end_from_range(ls: Seq<Seq<char>>, start: int, i: int, depth: int)
    requires
        0 <= start <= i,
        start < ls.len(),
    ensures
        start <= block_end_from(ls, start, i, depth) < ls.len(),
    decreases ls.len() - i,
{
    if i < ls.len() {
        let d = depth + depth_delta(ls[i]);
        if !(d <= 0 && i > start) {
            lemma_block_end_from_range(ls, start, i + 1, d);
        }
    }
}

/// The line range an entry covers, from its span.
pub open spec fn span_lines(e: IndexEntryV) -> (int, int) {
    match e.span {
        Some(sp) => match (sp.start, sp.end) {
            (Some(a), Some(b)) => (a.line as int, b.line as int),
            _ => (-1, -1),
        },
        None => (-1, -1),
    }
}

proof fn lemma_symbol_spans(ws: Seq<char>, f: FileRef, ls: Seq<Seq<char>>, n: int)
    requires
        0 <= n <= ls.len(),
        ls.len() <= i32::MAX,
    ensures
        forall|k: int| 0 <= k < symbol_entries_s(ws, f, ls, n).len() ==> {
            let r = #[trigger] span_lines(symbol_entries_s(ws, f, ls, n)[k]);
            0 <= r.0 <= r.1 < ls.len()
        },
    decreases n,
{
    if n > 0 {
        lemma_symbol_spans(ws, f, ls, n - 1);
        lemma_block_end_from_range(ls, n - 1, n - 1, 0);
        let prev = symbol_entries_s(ws, f, ls, n - 1);
        let cur = symbol_entries_s(ws, f, ls, n);
        if classify(trim_start_s(ls[n - 1])) is Some {
            let e = symbol_entry_s(ws, f, ls, n - 1);
            let b = block_end(ls, n - 1);
            assert(((n - 1) as nat) as i32 as int == n - 1);
            assert((b as nat) as i32 as int == b);
            assert(span_lines(e) == (n - 1, b));
            assert forall|k: int| 0 <= k < cur.len() implies {
                let r = #[trigger] span_lines(cur[k]);
                0 <= r.0 <= r.1 < ls.len()
            } by {
                if k < prev.len() {
                    assert(cur[k] == prev[k]);
                }
            }
        }
    }
}

/// Every entry of a file covers a line range inside the file that starts no later than it
/// ends; the header, when the file has lines, comes first and covers its first twenty
/// lines (or all of them).
pub proof fn law_entry_spans_within_file(workspace_id: Seq<char>, file_ref: FileRef, source: Seq<char>)
    requires
        lines(source).len() <= i32::MAX,
    ensures
        forall|k: int| 0 <= k < index_file_s(workspace_id, file_ref, source).len() ==> {
            let r = #[trigger] span_lines(index_file_s(workspace_id, file_ref, source)[k]);
            0 <= r.0 <= r.1 < lines(source).len()
        },
        lines(source).len() > 0 ==> index_file_s(workspace_id, file_ref, source)[0].chunk_kind
            == ChunkKind::FileHeader && span_lines(index_file_s(workspace_id, file_ref, source)[0])
            == (0int, if lines(source).len() < 20 { lines(source).len() - 1 } else { 19 }),
{
    let ls = lines(source);
    lemma_symbol_spans(workspace_id, file_ref, ls, ls.len() as int);
    let es = index_file_s(workspace_id, file_ref, source);
    let sym = symbol_entries_s(workspace_id, file_ref, ls, ls.len() as int);
    assert forall|k: int| 0 <= k < es.len() implies {
        let r = #[trigger] span_lines(es[k]);
        0 <= r.0 <= r.1 < ls.len()
    } by {
        if ls.len() > 0 {
            if k > 0 {
                assert(es[k] == sym[k - 1]);
            }
        } else {
            assert(es[k] == sym[k]);
        }
    }
}

} // verus!
