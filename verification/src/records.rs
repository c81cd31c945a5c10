//! The records exchanged between the CodeIO services: files, spans, symbols, index entries,
//! workspace trees and dependency graphs.

use vstd::prelude::*;

verus! {

#[derive(Debug, Clone, Copy, PartialEq, Eq, Structural)]
pub enum Language {
    Unknown,
    Cpp,
    Rust,
    Haskell,
    Lisp,
    Python,
    Java,
    Javascript,
    Typescript,
    Php,
    Codeio,
}

/// A point in time: seconds and nanoseconds since the Unix epoch.
#[derive(Debug, Clone, Copy, PartialEq, Eq, Structural)]
pub struct Timestamp {
    pub seconds: i64,
    pub nanos: i32,
}

/// A file of a workspace.
#[derive(Debug, Clone)]
pub struct FileRef {
    pub path: String,
    pub language: Language,
    pub last_modified: Option<Timestamp>,
    pub size_bytes: i64,
    pub workspace_id: String,
}

impl FileRef {
    pub fn duplicate(&self) -> (r: FileRef)
        ensures
            r == *self,
    {
        FileRef {
            path: self.path.clone(),
            language: self.language,
            last_modified: self.last_modified,
            size_bytes: self.size_bytes,
            workspace_id: self.workspace_id.clone(),
        }
    }
}

#[derive(Debug, Clone, Copy, PartialEq, Eq, Structural)]
pub struct Position {
    pub line: i32,
    pub column: i32,
    pub byte_offset: i32,
}

#[derive(Debug, Clone, Copy, PartialEq, Eq, Structural)]
pub struct Span {
    pub start: Option<Position>,
    pub end: Option<Position>,
}

#[derive(Debug, Clone, Copy, PartialEq, Eq, Structural)]
pub enum ChunkKind {
    Unspecified,
    Function,
    TypeDef,
    Module,
    FileHeader,
    ImportBlock,
    Test,
    MacroDef,
}

#[derive(Debug, Clone, Copy, PartialEq, Eq, Structural)]
pub enum SymbolKind {
    Unspecified,
    Function,
    Type,
}

#[derive(Debug, Clone, Copy, PartialEq, Eq, Structural)]
pub enum Visibility {
    Unspecified,
    Public,
    Private,
}

/// A named definition found in a file.
#[derive(Debug, Clone)]
pub struct SymbolRecord {
    pub name: String,
    pub qualified_name: String,
    pub kind: SymbolKind,
    pub visibility: Visibility,
    pub signature: String,
    pub doc_comment: String,
    pub defined_at: Option<FileRef>,
    pub references: Vec<FileRef>,
}

fn duplicate_file_refs(v: &Vec<FileRef>) -> (r: Vec<FileRef>)
    ensures
        r@ == v@,
{
    let mut r: Vec<FileRef> = Vec::new();
    let mut i: usize = 0;
    while i < v.len()
        invariant
            i <= v@.len(),
            r@ == v@.take(i as int),
        decreases v.len() - i,
    {
        r.push(v[i].duplicate());
        i = i + 1;
        assert(r@ =~= v@.take(i as int));
    }
    assert(v@.take(v@.len() as int) =~= v@);
    r
}

fn duplicate_opt_file_ref(f: &Option<FileRef>) -> (r: Option<FileRef>)
    ensures
        r == *f,
{
    match f {
        Some(x) => Some(x.duplicate()),
        None => None,
    }
}

pub struct SymbolRecordV {
    pub name: Seq<char>,
    pub qualified_name: Seq<char>,
    pub kind: SymbolKind,
    pub visibility: Visibility,
    pub signature: Seq<char>,
    pub doc_comment: Seq<char>,
    pub defined_at: Option<FileRef>,
    pub references: Seq<FileRef>,
}

impl View for SymbolRecord {
    type V = SymbolRecordV;

    open spec fn view(&self) -> SymbolRecordV {
        SymbolRecordV {
            name: self.name@,
            qualified_name: self.qualified_name@,
            kind: self.kind,
            visibility: self.visibility,
            signature: self.signature@,
            doc_comment: self.doc_comment@,
            defined_at: self.defined_at,
            references: self.references@,
        }
    }
}

impl SymbolRecord {
    pub fn duplicate(&self) -> (r: SymbolRecord)
        ensures
            r@ == self@,
    {
        SymbolRecord {
            name: self.name.clone(),
            qualified_name: self.qualified_name.clone(),
            kind: self.kind,
            visibility: self.visibility,
            signature: self.signature.clone(),
            doc_comment: self.doc_comment.clone(),
            defined_at: duplicate_opt_file_ref(&self.defined_at),
            references: duplicate_file_refs(&self.references),
        }
    }
}

/// One indexed chunk of a file. `importance_milli` is the importance score in
/// thousandths (700 is 0.7).
#[derive(Debug, Clone)]
pub struct IndexEntry {
    pub id: String,
    pub workspace_id: String,
    pub file_ref: Option<FileRef>,
    pub span: Option<Span>,
    pub chunk_kind: ChunkKind,
    pub symbol_record: Option<SymbolRecord>,
    pub content_hash: String,
    pub embedding_id: String,
    pub tokens: i32,
    pub importance_milli: u32,
    pub last_indexed: Option<Timestamp>,
    pub raw_content: String,
}

pub struct IndexEntryV {
    pub id: Seq<char>,
    pub workspace_id: Seq<char>,
    pub file_ref: Option<FileRef>,
    pub span: Option<Span>,
    pub chunk_kind: ChunkKind,
    pub symbol_record: Option<SymbolRecordV>,
    pub content_hash: Seq<char>,
    pub embedding_id: Seq<char>,
    pub tokens: i32,
    pub importance_milli: u32,
    pub last_indexed: Option<Timestamp>,
    pub raw_content: Seq<char>,
}

impl View for IndexEntry {
    type V = IndexEntryV;

    open spec fn view(&self) -> IndexEntryV {
        IndexEntryV {
            id: self.id@,
            workspace_id: self.workspace_id@,
            file_ref: self.file_ref,
            span: self.span,
            chunk_kind: self.chunk_kind,
            symbol_record: match self.symbol_record {
                Some(s) => Some(s@),
                None => None,
            },
            content_hash: self.content_hash@,
            embedding_id: self.embedding_id@,
            tokens: self.tokens,
            importance_milli: self.importance_milli,
            last_indexed: self.last_indexed,
            raw_content: self.raw_content@,
        }
    }
}

impl IndexEntry {
    pub fn duplicate(&self) -> (r: IndexEntry)
        ensures
            r@ == self@,
    {
        IndexEntry {
            id: self.id.clone(),
            workspace_id: self.workspace_id.clone(),
            file_ref: duplicate_opt_file_ref(&self.file_ref),
            span: self.span,
            chunk_kind: self.chunk_kind,
            symbol_record: match &self.symbol_record {
                Some(s) => Some(s.duplicate()),
                None => None,
            },
            content_hash: self.content_hash.clone(),
            embedding_id: self.embedding_id.clone(),
            tokens: self.tokens,
            importance_milli: self.importance_milli,
            last_indexed: self.last_indexed,
            raw_content: self.raw_content.clone(),
        }
    }
}

/// A node of a workspace tree: a file, or a directory with its children.
#[derive(Debug)]
pub struct FileNode {
    pub file_ref: Option<FileRef>,
    pub is_directory: bool,
    pub children: Vec<FileNode>,
}

/// The outcome of scanning a workspace.
#[derive(Debug)]
pub struct ScanResult {
    pub workspace_id: String,
    pub root: Option<FileNode>,
    pub total_files: i32,
    pub total_directories: i32,
    pub scanned_at: Option<Timestamp>,
    pub errors: Vec<String>,
}

#[derive(Debug, Clone, Copy, PartialEq, Eq, Structural)]
pub enum EdgeKind {
    Unspecified,
    Import,
}

#[derive(Debug, Clone)]
pub struct DependencyNode {
    pub id: String,
    pub file: Option<FileRef>,
    pub symbol: String,
    pub module: String,
}

#[derive(Debug, Clone)]
pub struct DependencyEdge {
    pub from_id: String,
    pub to_id: String,
    pub kind: EdgeKind,
}

#[derive(Debug, Clone)]
pub struct DependencyGraph {
    pub nodes: Vec<DependencyNode>,
    pub edges: Vec<DependencyEdge>,
}

} // verus!
