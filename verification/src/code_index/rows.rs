//! The rows the code index is made of, as plain values.

use vstd::prelude::*;

verus! {

/// One file of the committed tree: its path and the hash of its content.
#[derive(Debug, Clone, PartialEq, Eq)]
pub struct TrackedFile {
    pub path: String,
    pub blob: String,
}

/// What a tracked file holds.
pub ghost struct FileView {
    pub path: Seq<char>,
    pub blob: Seq<char>,
}

impl View for TrackedFile {
    type V = FileView;

    open spec fn view(&self) -> FileView {
        FileView { path: self.path@, blob: self.blob@ }
    }
}

impl TrackedFile {
    pub fn copied(&self) -> (r: TrackedFile)
        ensures
            r@ == self@,
    {
        TrackedFile { path: self.path.clone(), blob: self.blob.clone() }
    }
}

/// What each tracked file of a list holds.
pub open spec fn files_view(v: Seq<TrackedFile>) -> Seq<FileView> {
    Seq::new(v.len(), |i: int| v[i]@)
}

pub proof fn lemma_files_push(v: Seq<TrackedFile>, x: TrackedFile)
    ensures
        files_view(v.push(x)) == files_view(v).push(x@),
{
    assert(files_view(v.push(x)) =~= files_view(v).push(x@));
}

/// One scoping decision: a directory of a project, its category, and who
/// decided (`llm` or `user`).
#[derive(Debug, Clone, PartialEq, Eq)]
pub struct ScopeRow {
    pub project_id: i64,
    pub dir: String,
    pub category: String,
    pub source: String,
    pub decided_at: String,
}

/// What a scoping decision says.
pub ghost struct ScopeView {
    pub dir: Seq<char>,
    pub category: Seq<char>,
    pub source: Seq<char>,
}

impl View for ScopeRow {
    type V = ScopeView;

    open spec fn view(&self) -> ScopeView {
        ScopeView { dir: self.dir@, category: self.category@, source: self.source@ }
    }
}

/// What each scoping decision of a list says.
pub open spec fn scopes_view(v: Seq<ScopeRow>) -> Seq<ScopeView> {
    Seq::new(v.len(), |i: int| v[i]@)
}

/// What git knows of a directory.
#[derive(Debug, Clone, PartialEq, Eq)]
pub struct DirStat {
    pub dir: String,
    pub files: u64,
    pub lines: u64,
    pub commits: u64,
    pub authors: Vec<String>,
    pub first_added: String,
}

/// An optional text as the value that a contract speaks of.
pub open spec fn opt_view(o: Option<String>) -> Option<Seq<char>> {
    match o {
        Some(s) => Some(s@),
        None => None,
    }
}

/// An optional borrowed text as the value that a contract speaks of.
pub open spec fn opt_str_view(o: Option<&str>) -> Option<Seq<char>> {
    match o {
        Some(s) => Some(s@),
        None => None,
    }
}

/// One indexed file: the blob its chunks were made from, its status, and how
/// often a summary of that blob was asked for without success.
#[derive(Debug, Clone, PartialEq, Eq)]
pub struct CodeFileRow {
    pub path: String,
    pub blob: String,
    pub status: String,
    pub summary_attempts: i64,
}

/// What a file row holds.
pub ghost struct RowView {
    pub path: Seq<char>,
    pub blob: Seq<char>,
    pub status: Seq<char>,
    pub summary_attempts: int,
}

impl View for CodeFileRow {
    type V = RowView;

    open spec fn view(&self) -> RowView {
        RowView {
            path: self.path@,
            blob: self.blob@,
            status: self.status@,
            summary_attempts: self.summary_attempts as int,
        }
    }
}

impl CodeFileRow {
    pub fn copied(&self) -> (r: CodeFileRow)
        ensures
            r@ == self@,
    {
        CodeFileRow {
            path: self.path.clone(),
            blob: self.blob.clone(),
            status: self.status.clone(),
            summary_attempts: self.summary_attempts,
        }
    }
}

/// What each file row of a list holds.
pub open spec fn rows_view(v: Seq<CodeFileRow>) -> Seq<RowView> {
    Seq::new(v.len(), |i: int| v[i]@)
}

/// No path occurs in two rows.
pub open spec fn one_row_per_path(rows: Seq<RowView>) -> bool {
    forall|i: int, j: int|
        0 <= i < rows.len() && 0 <= j < rows.len() && (#[trigger] rows[i]).path == (#[trigger] rows[j]).path ==> i == j
}

} // verus!
