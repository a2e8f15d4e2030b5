//! The module stage: which modules a project has, in which order their
//! summaries are made, and what becomes of each.

use vstd::prelude::*;

use crate::code_index::changes::row_of;
use crate::code_index::job::Budget;
use crate::code_index::reply::{is_tool_line, is_tool_transcript};
use crate::code_index::rows::{opt_str_view, rows_view, CodeFileRow, RowView};
use crate::code_index::scope::{dir_owns, owns};
use crate::code_index::summary::{
    build_module_prompt, by_path, children_digest, children_view, digest_of, mirror, mirror_content, module_prompt,
    sort_children, ChildSummary, ChildView,
};
use crate::code_index::writes::{
    index_source, mirror_source, note, writes_view, Write, WriteView, SUMMARY_GIVE_UP_ATTEMPTS,
};
use crate::order::{add_text, sorted_set};
use crate::text::{
    chars_of, copy_of, in_list, lines, listed, owned, push_all, push_text, same_text, split, split_char, string_of,
    texts, trim, trim_end_of, trimmed, trimmed_end_of, views,
};

verus! {

// --- the shape of a project ---

/// A child of a module: a file or a module below it.
#[derive(Debug, Clone)]
pub struct ChildRef {
    pub path: String,
    pub is_file: bool,
}

/// A child's path, and whether it is a file.
pub open spec fn ref_view(c: ChildRef) -> (Seq<char>, bool) {
    (c.path@, c.is_file)
}

pub open spec fn refs_view(v: Seq<ChildRef>) -> Seq<(Seq<char>, bool)> {
    Seq::new(v.len(), |i: int| ref_view(v[i]))
}

/// The depth-one module that a file lies in, with a slash behind it.
pub open spec fn depth1_of(path: Seq<char>) -> Option<Seq<char>> {
    let c = split(path, '/');
    if c.len() >= 2 {
        Some(c[0] + "/"@)
    } else {
        None
    }
}

/// The depth-two module that a file lies in, with a slash behind it.
pub open spec fn depth2_of(path: Seq<char>) -> Option<Seq<char>> {
    let c = split(path, '/');
    if c.len() >= 3 {
        Some(c[0] + "/"@ + c[1] + "/"@)
    } else {
        None
    }
}

/// The depth-one modules that the files lie in.
pub open spec fn depth1_parts(rows: Seq<RowView>) -> Seq<Seq<char>>
    decreases rows.len(),
{
    if rows.len() == 0 {
        Seq::empty()
    } else {
        let rest = depth1_parts(rows.drop_last());
        match depth1_of(rows.last().path) {
            Some(d) => rest.push(d),
            None => rest,
        }
    }
}

/// The depth-two modules that the files lie in.
pub open spec fn depth2_parts(rows: Seq<RowView>) -> Seq<Seq<char>>
    decreases rows.len(),
{
    if rows.len() == 0 {
        Seq::empty()
    } else {
        let rest = depth2_parts(rows.drop_last());
        match depth2_of(rows.last().path) {
            Some(d) => rest.push(d),
            None => rest,
        }
    }
}

/// The depth-one modules of a project, in order.
pub open spec fn depth1(rows: Seq<RowView>) -> Seq<Seq<char>> {
    sorted_set(depth1_parts(rows))
}

/// The depth-two modules of a project, in order.
pub open spec fn depth2(rows: Seq<RowView>) -> Seq<Seq<char>> {
    sorted_set(depth2_parts(rows))
}

/// The directory whose summary a file is a direct child of: its depth-two
/// module where it has one, else the depth-one module, else the repository.
pub open spec fn home_of(path: Seq<char>) -> Seq<char> {
    match depth2_of(path) {
        Some(d) => d,
        None => match depth1_of(path) {
            Some(d) => d,
            None => "/"@,
        },
    }
}

/// How many of the components of a path are directories, up to two.
pub open spec fn depth_of(path: Seq<char>) -> int {
    let n = split(path, '/').len() - 1;
    if n > 2 {
        2
    } else {
        n
    }
}

/// The files at home in a directory of the depth.
pub open spec fn files_at(rows: Seq<RowView>, dir: Seq<char>, depth: int) -> Seq<(Seq<char>, bool)>
    decreases rows.len(),
{
    if rows.len() == 0 {
        Seq::empty()
    } else {
        let rest = files_at(rows.drop_last(), dir, depth);
        let p = rows.last().path;
        if depth_of(p) == depth && home_of(p) == dir {
            rest.push((p, true))
        } else {
            rest
        }
    }
}

/// The modules of the list that lie in a depth-one module.
pub open spec fn modules_in(dirs: Seq<Seq<char>>, d1: Seq<char>) -> Seq<(Seq<char>, bool)>
    decreases dirs.len(),
{
    if dirs.len() == 0 {
        Seq::empty()
    } else {
        let rest = modules_in(dirs.drop_last(), d1);
        if split(dirs.last(), '/')[0] + "/"@ == d1 {
            rest.push((dirs.last(), false))
        } else {
            rest
        }
    }
}

/// The modules of the list as children.
pub open spec fn as_modules(dirs: Seq<Seq<char>>) -> Seq<(Seq<char>, bool)> {
    Seq::new(dirs.len(), |i: int| (dirs[i], false))
}

/// The children of a depth-one module: the files directly in it, and its
/// depth-two modules.
pub open spec fn depth1_children(rows: Seq<RowView>, d1: Seq<char>) -> Seq<(Seq<char>, bool)> {
    files_at(rows, d1, 1) + modules_in(depth2(rows), d1)
}

/// The children of the repository: its root files and its depth-one modules.
pub open spec fn repo_children(rows: Seq<RowView>) -> Seq<(Seq<char>, bool)> {
    files_at(rows, "/"@, 0) + as_modules(depth1(rows))
}

/// Whether a module lies under a prefix; a trailing slash on either makes no
/// difference, and an empty prefix has every module under it.
pub open spec fn under_prefix(dir: Seq<char>, prefix: Seq<char>) -> bool {
    let p = trim_end_of(prefix, '/', '/');
    p.len() == 0 || owns(p, trim_end_of(dir, '/', '/'))
}

/// Whether a run over the prefix, if there is one, concerns the module.
pub open spec fn concerns(prefix: Option<Seq<char>>, dir: Seq<char>) -> bool {
    match prefix {
        Some(p) => under_prefix(dir, p),
        None => true,
    }
}

/// One module to look at: its directory, whether it is the repository, and its
/// children.
#[derive(Debug, Clone)]
pub struct ModuleTask {
    pub dir: String,
    pub is_repo: bool,
    pub children: Vec<ChildRef>,
}

/// What a task says.
pub ghost struct TaskView {
    pub dir: Seq<char>,
    pub is_repo: bool,
    pub children: Seq<(Seq<char>, bool)>,
}

impl View for ModuleTask {
    type V = TaskView;

    open spec fn view(&self) -> TaskView {
        TaskView { dir: self.dir@, is_repo: self.is_repo, children: refs_view(self.children@) }
    }
}

pub open spec fn tasks_view(v: Seq<ModuleTask>) -> Seq<TaskView> {
    Seq::new(v.len(), |i: int| v[i]@)
}

/// The tasks of the depth-two modules that the prefix concerns.
pub open spec fn depth2_tasks(rows: Seq<RowView>, dirs: Seq<Seq<char>>, prefix: Option<Seq<char>>) -> Seq<TaskView>
    decreases dirs.len(),
{
    if dirs.len() == 0 {
        Seq::empty()
    } else {
        let rest = depth2_tasks(rows, dirs.drop_last(), prefix);
        let d = dirs.last();
        if concerns(prefix, d) {
            rest.push((TaskView { dir: d, is_repo: false, children: files_at(rows, d, 2) }))
        } else {
            rest
        }
    }
}

/// The tasks of the depth-one modules that the prefix concerns.
pub open spec fn depth1_tasks(rows: Seq<RowView>, dirs: Seq<Seq<char>>, prefix: Option<Seq<char>>) -> Seq<TaskView>
    decreases dirs.len(),
{
    if dirs.len() == 0 {
        Seq::empty()
    } else {
        let rest = depth1_tasks(rows, dirs.drop_last(), prefix);
        let d = dirs.last();
        if concerns(prefix, d) {
            rest.push((TaskView { dir: d, is_repo: false, children: depth1_children(rows, d) }))
        } else {
            rest
        }
    }
}

/// The repository's own task: none without files, and none under a prefix.
pub open spec fn repo_tasks(rows: Seq<RowView>, prefix: Option<Seq<char>>) -> Seq<TaskView> {
    if rows.len() > 0 && prefix is None {
        seq![TaskView { dir: "/"@, is_repo: true, children: repo_children(rows) }]
    } else {
        Seq::empty()
    }
}

/// The module stage's tasks: depth two, then depth one, then the repository.
pub open spec fn all_tasks(rows: Seq<RowView>, prefix: Option<Seq<char>>) -> Seq<TaskView> {
    depth2_tasks(rows, depth2(rows), prefix) + depth1_tasks(rows, depth1(rows), prefix) + repo_tasks(rows, prefix)
}

/// A run over a prefix never touches the repository's summary.
pub proof fn law_prefix_run_leaves_the_repository_alone(rows: Seq<RowView>, prefix: Seq<char>)
    ensures
        forall|i: int|
            0 <= i < all_tasks(rows, Some(prefix)).len() ==> !(#[trigger] all_tasks(rows, Some(prefix))[i]).is_repo,
{
    lemma_depth2_no_repo(rows, depth2(rows), Some(prefix));
    lemma_depth1_no_repo(rows, depth1(rows), Some(prefix));
}

proof fn lemma_depth2_no_repo(rows: Seq<RowView>, dirs: Seq<Seq<char>>, prefix: Option<Seq<char>>)
    ensures
        forall|i: int|
            0 <= i < depth2_tasks(rows, dirs, prefix).len() ==> !(#[trigger] depth2_tasks(rows, dirs, prefix)[i]).is_repo,
    decreases dirs.len(),
{
    if dirs.len() > 0 {
        lemma_depth2_no_repo(rows, dirs.drop_last(), prefix);
        let sub = depth2_tasks(rows, dirs.drop_last(), prefix);
        let all = depth2_tasks(rows, dirs, prefix);
        assert forall|i: int| 0 <= i < all.len() implies !(#[trigger] all[i]).is_repo by {
            if i < sub.len() {
                assert(all[i] == sub[i]);
            }
        }
    }
}

proof fn lemma_depth1_no_repo(rows: Seq<RowView>, dirs: Seq<Seq<char>>, prefix: Option<Seq<char>>)
    ensures
        forall|i: int|
            0 <= i < depth1_tasks(rows, dirs, prefix).len() ==> !(#[trigger] depth1_tasks(rows, dirs, prefix)[i]).is_repo,
    decreases dirs.len(),
{
    if dirs.len() > 0 {
        lemma_depth1_no_repo(rows, dirs.drop_last(), prefix);
        let sub = depth1_tasks(rows, dirs.drop_last(), prefix);
        let all = depth1_tasks(rows, dirs, prefix);
        assert forall|i: int| 0 <= i < all.len() implies !(#[trigger] all[i]).is_repo by {
            if i < sub.len() {
                assert(all[i] == sub[i]);
            }
        }
    }
}

/// Whether the module `dir` lies under `prefix`.
pub fn dir_under_prefix(dir: &str, prefix: &str) -> (r: bool)
    ensures
        r == under_prefix(dir@, prefix@),
{
    let dc = chars_of(dir);
    let pc = chars_of(prefix);
    let d = trimmed_end_of(dc.as_slice(), '/', '/');
    let p = trimmed_end_of(pc.as_slice(), '/', '/');
    p.len() == 0 || dir_owns(p, d)
}

fn is_concerned(path_prefix: Option<&str>, dir: &str) -> (r: bool)
    ensures
        r == concerns(opt_str_view(path_prefix), dir@),
{
    match path_prefix {
        Some(p) => dir_under_prefix(dir, p),
        None => true,
    }
}

/// Where a file is at home, and how deep.
fn home(path: &str) -> (r: (String, usize))
    ensures
        r.0@ == home_of(path@),
        r.1 == depth_of(path@),
        r.1 >= 1 <==> depth1_of(path@) is Some,
        r.1 >= 2 <==> depth2_of(path@) is Some,
{
    let pc = chars_of(path);
    let segs = split_char(pc.as_slice(), '/');
    proof {
        crate::code_index::secrets::lemma_split_nonempty(path@, '/');
        assert(views(segs@).len() == segs@.len());
    }
    if segs.len() == 1 {
        return (owned("/"), 0);
    }
    assert(views(segs@)[0] == segs@[0]@);
    let mut d = copy_of(segs[0]);
    push_text(&mut d, "/");
    if segs.len() == 2 {
        return (string_of(d.as_slice()), 1);
    }
    assert(views(segs@)[1] == segs@[1]@);
    push_all(&mut d, segs[1]);
    push_text(&mut d, "/");
    (string_of(d.as_slice()), 2)
}

/// The depth-one part of a path, with a slash behind it.
fn top_of(path: &str) -> (r: String)
    ensures
        r@ == split(path@, '/')[0] + "/"@,
{
    let pc = chars_of(path);
    let segs = split_char(pc.as_slice(), '/');
    proof {
        crate::code_index::secrets::lemma_split_nonempty(path@, '/');
        assert(views(segs@).len() == segs@.len());
        assert(views(segs@)[0] == segs@[0]@);
    }
    let mut d = copy_of(segs[0]);
    push_text(&mut d, "/");
    string_of(d.as_slice())
}

/// The modules of a project: its directories at depth one and two with a file
/// under them.
#[derive(Debug, Clone)]
pub struct FileTree {
    pub depth1_dirs: Vec<String>,
    pub depth2_dirs: Vec<String>,
    pub has_any_file: bool,
}

/// Finds the modules of a project from its indexed and fallen-back files.
pub fn build_file_tree(rows: &Vec<CodeFileRow>) -> (r: FileTree)
    ensures
        texts(r.depth1_dirs@) == depth1(rows_view(rows@)),
        texts(r.depth2_dirs@) == depth2(rows_view(rows@)),
        r.has_any_file == (rows@.len() > 0),
{
    let ghost rv = rows_view(rows@);
    let mut depth1_dirs: Vec<String> = Vec::new();
    let mut depth2_dirs: Vec<String> = Vec::new();
    let mut i: usize = 0;
    proof {
        assert(depth1_parts(rv.take(0)) =~= Seq::empty());
        assert(depth2_parts(rv.take(0)) =~= Seq::empty());
        assert(texts(depth1_dirs@) =~= sorted_set(Seq::empty()));
        assert(texts(depth2_dirs@) =~= sorted_set(Seq::empty()));
    }
    while i < rows.len()
        invariant
            i <= rows@.len(),
            rv == rows_view(rows@),
            texts(depth1_dirs@) == sorted_set(depth1_parts(rv.take(i as int))),
            texts(depth2_dirs@) == sorted_set(depth2_parts(rv.take(i as int))),
        decreases rows@.len() - i,
    {
        assert(rv.take(i + 1).drop_last() =~= rv.take(i as int));
        assert(rv.take(i + 1).last() == rows@[i as int]@);
        let path: &str = rows[i].path.as_str();
        let (dir, depth) = home(path);
        if depth >= 1 {
            let top = top_of(path);
            add_text(&mut depth1_dirs, top.as_str());
            assert(depth1_parts(rv.take(i + 1)).drop_last() =~= depth1_parts(rv.take(i as int)));
        }
        if depth >= 2 {
            add_text(&mut depth2_dirs, dir.as_str());
            assert(depth2_parts(rv.take(i + 1)).drop_last() =~= depth2_parts(rv.take(i as int)));
        }
        i = i + 1;
    }
    assert(rv.take(i as int) =~= rv);
    FileTree { depth1_dirs, depth2_dirs, has_any_file: rows.len() > 0 }
}

fn files_home(rows: &Vec<CodeFileRow>, dir: &str, depth: usize) -> (r: Vec<ChildRef>)
    ensures
        refs_view(r@) == files_at(rows_view(rows@), dir@, depth as int),
{
    let ghost rv = rows_view(rows@);
    let mut out: Vec<ChildRef> = Vec::new();
    let mut i: usize = 0;
    assert(refs_view(out@) =~= files_at(rv.take(0), dir@, depth as int));
    while i < rows.len()
        invariant
            i <= rows@.len(),
            rv == rows_view(rows@),
            refs_view(out@) == files_at(rv.take(i as int), dir@, depth as int),
        decreases rows@.len() - i,
    {
        assert(rv.take(i + 1).drop_last() =~= rv.take(i as int));
        assert(rv.take(i + 1).last() == rows@[i as int]@);
        let (d, n) = home(rows[i].path.as_str());
        if n == depth && same_text(d.as_str(), dir) {
            let c = ChildRef { path: rows[i].path.clone(), is_file: true };
            let ghost done = out@;
            out.push(c);
            assert(refs_view(out@) =~= refs_view(done).push(ref_view(c)));
        }
        i = i + 1;
    }
    assert(rv.take(i as int) =~= rv);
    out
}

/// Lists the modules to look at, with their children: the deepest first, so
/// that a module sees the summaries that this run made below it.
pub fn module_tasks(rows: &Vec<CodeFileRow>, path_prefix: Option<&str>) -> (r: Vec<ModuleTask>)
    ensures
        tasks_view(r@) == all_tasks(rows_view(rows@), opt_str_view(path_prefix)),
{
    let ghost rv = rows_view(rows@);
    let ghost prefix = opt_str_view(path_prefix);
    let tree = build_file_tree(rows);
    let ghost d1 = texts(tree.depth1_dirs@);
    let ghost d2 = texts(tree.depth2_dirs@);
    let mut out: Vec<ModuleTask> = Vec::new();
    let mut i: usize = 0;
    assert(tasks_view(out@) =~= depth2_tasks(rv, d2.take(0), prefix));
    while i < tree.depth2_dirs.len()
        invariant
            i <= tree.depth2_dirs@.len(),
            rv == rows_view(rows@),
            prefix == opt_str_view(path_prefix),
            d2 == texts(tree.depth2_dirs@),
            tasks_view(out@) == depth2_tasks(rv, d2.take(i as int), prefix),
        decreases tree.depth2_dirs@.len() - i,
    {
        assert(d2.take(i + 1).drop_last() =~= d2.take(i as int));
        let dir: &str = tree.depth2_dirs[i].as_str();
        assert(d2.take(i + 1).last() == dir@);
        if is_concerned(path_prefix, dir) {
            let t = ModuleTask { dir: owned(dir), is_repo: false, children: files_home(rows, dir, 2) };
            let ghost done = out@;
            out.push(t);
            assert(tasks_view(out@) =~= tasks_view(done).push(t@));
        }
        i = i + 1;
    }
    assert(d2.take(i as int) =~= d2);
    let ghost base = tasks_view(out@);
    let mut j: usize = 0;
    assert(tasks_view(out@) =~= base + depth1_tasks(rv, d1.take(0), prefix));
    while j < tree.depth1_dirs.len()
        invariant
            j <= tree.depth1_dirs@.len(),
            rv == rows_view(rows@),
            prefix == opt_str_view(path_prefix),
            d1 == texts(tree.depth1_dirs@),
            d2 == texts(tree.depth2_dirs@),
            d2 == depth2(rv),
            tasks_view(out@) == base + depth1_tasks(rv, d1.take(j as int), prefix),
        decreases tree.depth1_dirs@.len() - j,
    {
        assert(d1.take(j + 1).drop_last() =~= d1.take(j as int));
        let dir: &str = tree.depth1_dirs[j].as_str();
        assert(d1.take(j + 1).last() == dir@);
        if is_concerned(path_prefix, dir) {
            let mut children = files_home(rows, dir, 1);
            let ghost files = refs_view(children@);
            let mut k: usize = 0;
            assert(refs_view(children@) =~= files + modules_in(d2.take(0), dir@));
            while k < tree.depth2_dirs.len()
                invariant
                    k <= tree.depth2_dirs@.len(),
                    d2 == texts(tree.depth2_dirs@),
                    refs_view(children@) == files + modules_in(d2.take(k as int), dir@),
                decreases tree.depth2_dirs@.len() - k,
            {
                assert(d2.take(k + 1).drop_last() =~= d2.take(k as int));
                let top = top_of(tree.depth2_dirs[k].as_str());
                if same_text(top.as_str(), dir) {
                    let c = ChildRef { path: tree.depth2_dirs[k].clone(), is_file: false };
                    let ghost done = children@;
                    children.push(c);
                    assert(refs_view(children@) =~= refs_view(done).push(ref_view(c)));
                }
                k = k + 1;
                assert(refs_view(children@) =~= files + modules_in(d2.take(k as int), dir@));
            }
            assert(d2.take(k as int) =~= d2);
            let t = ModuleTask { dir: owned(dir), is_repo: false, children };
            let ghost done = out@;
            out.push(t);
            assert(tasks_view(out@) =~= tasks_view(done).push(t@));
        }
        j = j + 1;
        assert(tasks_view(out@) =~= base + depth1_tasks(rv, d1.take(j as int), prefix));
    }
    assert(d1.take(j as int) =~= d1);
    let ghost upto = tasks_view(out@);
    if tree.has_any_file && path_prefix.is_none() {
        let mut children = files_home(rows, "/", 0);
        let ghost files = refs_view(children@);
        let mut k: usize = 0;
        assert(refs_view(children@) =~= files + as_modules(d1.take(0)));
        while k < tree.depth1_dirs.len()
            invariant
                k <= tree.depth1_dirs@.len(),
                d1 == texts(tree.depth1_dirs@),
                refs_view(children@) == files + as_modules(d1.take(k as int)),
            decreases tree.depth1_dirs@.len() - k,
        {
            let c = ChildRef { path: tree.depth1_dirs[k].clone(), is_file: false };
            let ghost done = children@;
            children.push(c);
            k = k + 1;
            assert(refs_view(children@) =~= refs_view(done).push(ref_view(c)));
            assert(as_modules(d1.take(k as int)) =~= as_modules(d1.take(k - 1)).push((d1[k - 1], false)));
            assert(refs_view(children@) =~= files + as_modules(d1.take(k as int)));
        }
        assert(d1.take(k as int) =~= d1);
        let t = ModuleTask { dir: owned("/"), is_repo: true, children };
        out.push(t);
        assert(t@.children == repo_children(rv));
        assert(tasks_view(out@) =~= upto + repo_tasks(rv, prefix));
    } else {
        assert(tasks_view(out@) =~= upto + repo_tasks(rv, prefix));
    }
    out
}

// --- summaries whose module is gone ---

/// A summary of a module or of the repository.
#[derive(Debug, Clone)]
pub struct ModuleSummary {
    pub path: String,
    pub level: String,
    pub memory_id: Option<i64>,
}

/// Whether a summary's module still has a file.
pub open spec fn is_live_module(path: Seq<char>, level: Seq<char>, rows: Seq<RowView>) -> bool {
    if level == "repo"@ {
        rows.len() > 0
    } else {
        listed(depth1(rows), path) || listed(depth2(rows), path)
    }
}

/// What an orphaned summary comes to: its mirrors and its memory are
/// invalidated, and it goes.
pub open spec fn orphan_writes(project: Seq<char>, m: ModuleSummary) -> Seq<WriteView> {
    seq![WriteView::InvalidateSource(mirror_source(project, m.path@))] + (match m.memory_id {
        Some(id) => seq![WriteView::InvalidateMemory(id)],
        None => Seq::empty(),
    }) + seq![WriteView::DeleteSummary(m.path@)]
}

/// What the orphaned summaries come to.
pub open spec fn cleanup_writes(project: Seq<char>, existing: Seq<ModuleSummary>, rows: Seq<RowView>) -> Seq<WriteView>
    decreases existing.len(),
{
    if existing.len() == 0 {
        Seq::empty()
    } else {
        let rest = cleanup_writes(project, existing.drop_last(), rows);
        let m = existing.last();
        if is_live_module(m.path@, m.level@, rows) {
            rest
        } else {
            rest + orphan_writes(project, m)
        }
    }
}

/// How many summaries are orphaned.
pub open spec fn orphans(existing: Seq<ModuleSummary>, rows: Seq<RowView>) -> int
    decreases existing.len(),
{
    if existing.len() == 0 {
        0
    } else {
        orphans(existing.drop_last(), rows) + (if is_live_module(existing.last().path@, existing.last().level@, rows) {
            0int
        } else {
            1
        })
    }
}

/// Finds the summaries whose module has no file left, and what becomes of
/// them. No call is made for it.
pub fn cleanup_orphaned_modules(project: &str, existing: &Vec<ModuleSummary>, rows: &Vec<CodeFileRow>) -> (r: (
    Vec<Write>,
    usize,
))
    ensures
        writes_view(r.0@) == cleanup_writes(project@, existing@, rows_view(rows@)),
        r.1 == orphans(existing@, rows_view(rows@)),
{
    let ghost rv = rows_view(rows@);
    let tree = build_file_tree(rows);
    let mut out: Vec<Write> = Vec::new();
    let mut pruned: usize = 0;
    let mut i: usize = 0;
    assert(writes_view(out@) =~= cleanup_writes(project@, existing@.take(0), rv));
    while i < existing.len()
        invariant
            i <= existing@.len(),
            pruned <= i,
            rv == rows_view(rows@),
            texts(tree.depth1_dirs@) == depth1(rv),
            texts(tree.depth2_dirs@) == depth2(rv),
            tree.has_any_file == (rv.len() > 0),
            writes_view(out@) == cleanup_writes(project@, existing@.take(i as int), rv),
            pruned == orphans(existing@.take(i as int), rv),
        decreases existing@.len() - i,
    {
        assert(existing@.take(i + 1).drop_last() =~= existing@.take(i as int));
        let m: &ModuleSummary = &existing[i];
        let live: bool = if same_text(m.level.as_str(), "repo") {
            tree.has_any_file
        } else {
            in_list(&tree.depth1_dirs, m.path.as_str()) || in_list(&tree.depth2_dirs, m.path.as_str())
        };
        if !live {
            let ghost before = writes_view(out@);
            note(&mut out, Write::InvalidateSource(index_source(project, m.path.as_str())));
            if let Some(id) = m.memory_id {
                note(&mut out, Write::InvalidateMemory(id));
            }
            note(&mut out, Write::DeleteSummary(m.path.clone()));
            assert(writes_view(out@) =~= before + orphan_writes(project@, *m));
            pruned = pruned + 1;
        }
        i = i + 1;
    }
    assert(existing@.take(i as int) =~= existing@);
    (out, pruned)
}

/// What a pass over the modules starts from: the writes for the orphaned
/// summaries, how many those are, and the modules to look at, in order.
pub struct ModulePass {
    pub writes: Vec<Write>,
    pub pruned: usize,
    pub tasks: Vec<ModuleTask>,
}

/// Starts a pass over the modules. Orphaned summaries go in every run, a prefix
/// only narrows the modules to look at.
pub fn run_module_summary_pass(
    project: &str,
    existing: &Vec<ModuleSummary>,
    rows: &Vec<CodeFileRow>,
    path_prefix: Option<&str>,
) -> (r: ModulePass)
    ensures
        writes_view(r.writes@) == cleanup_writes(project@, existing@, rows_view(rows@)),
        r.pruned == orphans(existing@, rows_view(rows@)),
        tasks_view(r.tasks@) == all_tasks(rows_view(rows@), opt_str_view(path_prefix)),
{
    let (writes, pruned) = cleanup_orphaned_modules(project, existing, rows);
    ModulePass { writes, pruned, tasks: module_tasks(rows, path_prefix) }
}

/// The module whose turn it is; none once the budget is spent, whatever is left
/// of the tasks.
pub fn next_module<'a>(budget: &Budget, tasks: &'a Vec<ModuleTask>, turn: usize) -> (r: Option<&'a ModuleTask>)
    ensures
        r is Some <==> budget@.has_remaining() && turn < tasks@.len(),
        r is Some ==> *(r->0) == tasks@[turn as int],
{
    if budget.remaining() && turn < tasks.len() {
        Some(&tasks[turn])
    } else {
        None
    }
}

// --- one module ---

/// A stored summary: what it is of, its text, and whether it is stale.
#[derive(Debug, Clone)]
pub struct SummaryRow {
    pub path: String,
    pub text: String,
    pub source_digest: String,
    pub stale: bool,
}

/// What a stored summary holds.
pub ghost struct SummaryView {
    pub path: Seq<char>,
    pub text: Seq<char>,
    pub source_digest: Seq<char>,
    pub stale: bool,
}

impl View for SummaryRow {
    type V = SummaryView;

    open spec fn view(&self) -> SummaryView {
        SummaryView { path: self.path@, text: self.text@, source_digest: self.source_digest@, stale: self.stale }
    }
}

pub open spec fn summaries_view(v: Seq<SummaryRow>) -> Seq<SummaryView> {
    Seq::new(v.len(), |i: int| v[i]@)
}

/// The summary of a path.
pub open spec fn summary_of(rows: Seq<SummaryView>, path: Seq<char>) -> Option<SummaryView>
    decreases rows.len(),
{
    if rows.len() == 0 {
        None
    } else if rows.last().path == path {
        Some(rows.last())
    } else {
        summary_of(rows.drop_last(), path)
    }
}

fn find_summary(rows: &Vec<SummaryRow>, path: &str) -> (r: Option<usize>)
    ensures
        r is Some == summary_of(summaries_view(rows@), path@) is Some,
        r is Some ==> r->0 < rows@.len() && summary_of(summaries_view(rows@), path@) == Some(rows@[r->0 as int]@),
{
    let ghost rv = summaries_view(rows@);
    let mut n: usize = rows.len();
    assert(rv.take(n as int) =~= rv);
    while n > 0
        invariant
            n <= rows@.len(),
            rv == summaries_view(rows@),
            summary_of(rv.take(n as int), path@) == summary_of(rv, path@),
        decreases n,
    {
        assert(rv.take(n as int).last() == rows@[n - 1]@);
        assert(rv.take(n as int).drop_last() =~= rv.take(n - 1));
        if same_text(rows[n - 1].path.as_str(), path) {
            return Some(n - 1);
        }
        n = n - 1;
    }
    None
}

/// Whether a child is done: a file whose summary is of its blob or that was
/// given up on, a module whose summary is not stale.
pub open spec fn is_fresh(child: (Seq<char>, bool), summaries: Seq<SummaryView>, files: Seq<RowView>) -> bool {
    let row = summary_of(summaries, child.0);
    let file = row_of(files, child.0);
    if child.1 {
        file is Some && ((row is Some && (file->0).blob == (row->0).source_digest) || (file->0).summary_attempts
            >= SUMMARY_GIVE_UP_ATTEMPTS)
    } else {
        row is Some && !(row->0).stale
    }
}

/// Whether every child is done.
pub open spec fn all_fresh(children: Seq<(Seq<char>, bool)>, summaries: Seq<SummaryView>, files: Seq<RowView>) -> bool {
    forall|i: int| 0 <= i < children.len() ==> is_fresh(#[trigger] children[i], summaries, files)
}

/// Whether a child is done.
pub fn child_fresh(child: &ChildRef, summaries: &Vec<SummaryRow>, files: &Vec<CodeFileRow>) -> (r: bool)
    ensures
        r == is_fresh(ref_view(*child), summaries_view(summaries@), rows_view(files@)),
{
    let row = find_summary(summaries, child.path.as_str());
    if child.is_file {
        match crate::code_index::changes::find_row(files, child.path.as_str()) {
            Some(k) => {
                let current: bool = match row {
                    Some(n) => same_text(files[k].blob.as_str(), summaries[n].source_digest.as_str()),
                    None => false,
                };
                current || files[k].summary_attempts >= SUMMARY_GIVE_UP_ATTEMPTS
            },
            None => false,
        }
    } else {
        match row {
            Some(n) => !summaries[n].stale,
            None => false,
        }
    }
}

/// Whether a module can be summarised: every child is done, or it has been
/// stale for so long (`overdue`) that it takes what there is.
pub fn is_ready(children: &Vec<ChildRef>, summaries: &Vec<SummaryRow>, files: &Vec<CodeFileRow>, overdue: bool) -> (r: bool)
    ensures
        r == (overdue || all_fresh(refs_view(children@), summaries_view(summaries@), rows_view(files@))),
{
    let ghost cv = refs_view(children@);
    let mut i: usize = 0;
    while i < children.len()
        invariant
            i <= children@.len(),
            cv == refs_view(children@),
            forall|j: int|
                0 <= j < i ==> is_fresh(#[trigger] cv[j], summaries_view(summaries@), rows_view(files@)),
        decreases children@.len() - i,
    {
        if !child_fresh(&children[i], summaries, files) {
            assert(!is_fresh(cv[i as int], summaries_view(summaries@), rows_view(files@)));
            return overdue;
        }
        i = i + 1;
    }
    true
}

/// The children's summaries that have text, in the children's order.
pub open spec fn with_text(children: Seq<(Seq<char>, bool)>, summaries: Seq<SummaryView>) -> Seq<ChildView>
    decreases children.len(),
{
    if children.len() == 0 {
        Seq::empty()
    } else {
        let rest = with_text(children.drop_last(), summaries);
        let row = summary_of(summaries, children.last().0);
        if row is Some && trim((row->0).text).len() > 0 {
            rest.push(
                (ChildView { path: children.last().0, digest: (row->0).source_digest, text: (row->0).text }),
            )
        } else {
            rest
        }
    }
}

/// What a module is summarised from: its children's summaries that have text,
/// by path.
pub open spec fn gathered(children: Seq<(Seq<char>, bool)>, summaries: Seq<SummaryView>) -> Seq<ChildView> {
    by_path(with_text(children, summaries))
}

/// Gathers what a module is summarised from.
pub fn gather_children(children: &Vec<ChildRef>, summaries: &Vec<SummaryRow>) -> (r: Vec<ChildSummary>)
    ensures
        children_view(r@) == gathered(refs_view(children@), summaries_view(summaries@)),
{
    let ghost cv = refs_view(children@);
    let ghost sv = summaries_view(summaries@);
    let mut out: Vec<ChildSummary> = Vec::new();
    let mut i: usize = 0;
    assert(children_view(out@) =~= with_text(cv.take(0), sv));
    while i < children.len()
        invariant
            i <= children@.len(),
            cv == refs_view(children@),
            sv == summaries_view(summaries@),
            children_view(out@) == with_text(cv.take(i as int), sv),
        decreases children@.len() - i,
    {
        assert(cv.take(i + 1).drop_last() =~= cv.take(i as int));
        assert(cv.take(i + 1).last() == ref_view(children@[i as int]));
        if let Some(n) = find_summary(summaries, children[i].path.as_str()) {
            let tc = chars_of(summaries[n].text.as_str());
            if trimmed(tc.as_slice()).len() > 0 {
                let c = ChildSummary {
                    path: children[i].path.clone(),
                    digest: summaries[n].source_digest.clone(),
                    text: summaries[n].text.clone(),
                };
                let ghost done = out@;
                out.push(c);
                assert(children_view(out@) =~= children_view(done).push(c@));
            }
        }
        i = i + 1;
    }
    assert(cv.take(i as int) =~= cv);
    sort_children(&out)
}

/// What a module's turn comes to before any call.
#[derive(Debug, Clone)]
pub enum ModuleStep {
    /// No call: these writes settle it.
    Settled(Vec<Write>),
    /// The summary call, with this prompt, and the digest of its children.
    Ask(String, String),
}

/// What a module's turn comes to, as the value that a contract speaks of.
pub ghost enum StepView {
    Settled(Seq<WriteView>),
    Ask(Seq<char>, Seq<char>),
}

impl View for ModuleStep {
    type V = StepView;

    open spec fn view(&self) -> StepView {
        match *self {
            ModuleStep::Settled(ws) => StepView::Settled(writes_view(ws@)),
            ModuleStep::Ask(prompt, digest) => StepView::Ask(prompt@, digest@),
        }
    }
}

/// The level that a task's summary is stored at.
pub open spec fn level_of(task: TaskView) -> Seq<char> {
    if task.is_repo {
        "repo"@
    } else {
        "module"@
    }
}

/// A module none of whose children has text: it keeps an empty summary, which
/// is not stale, so that it is not looked at again until a child changes.
pub open spec fn empty_writes(
    project: Seq<char>,
    task: TaskView,
    existing: Option<SummaryView>,
    digest: Seq<char>,
) -> Seq<WriteView> {
    (match existing {
        Some(row) => if row.text.len() > 0 {
            seq![WriteView::EmptySummary(task.dir), WriteView::InvalidateSource(mirror_source(project, task.dir))]
        } else {
            Seq::empty()
        },
        None => seq![WriteView::SeedPlaceholder(task.dir, level_of(task))],
    }) + seq![WriteView::ClearStale(task.dir, digest)]
}

/// What a module's turn comes to. A summary that is not stale stands. One whose
/// children are not done waits, and is seeded where it does not exist yet. One
/// that nothing below has changed for is current again. Any other is made anew.
pub open spec fn step_of(
    project: Seq<char>,
    task: TaskView,
    existing: Option<SummaryView>,
    summaries: Seq<SummaryView>,
    files: Seq<RowView>,
    overdue: bool,
) -> StepView {
    let cs = gathered(task.children, summaries);
    let digest = digest_of(cs);
    if existing is Some && !(existing->0).stale {
        StepView::Settled(Seq::empty())
    } else if !(overdue || all_fresh(task.children, summaries, files)) {
        StepView::Settled(
            if existing is None {
                seq![WriteView::SeedPlaceholder(task.dir, level_of(task))]
            } else {
                Seq::empty()
            },
        )
    } else if cs.len() == 0 {
        StepView::Settled(empty_writes(project, task, existing, digest))
    } else if existing is Some && (existing->0).source_digest == digest && (existing->0).text.len() > 0 {
        StepView::Settled(seq![WriteView::ClearStale(task.dir, digest)])
    } else {
        StepView::Ask(module_prompt(project, task.dir, task.is_repo, cs), digest)
    }
}

/// Decides on a module's turn. `overdue` says that its summary exists and has
/// been stale for at least a week.
pub fn try_regenerate_one(
    project: &str,
    task: &ModuleTask,
    existing: Option<&SummaryRow>,
    summaries: &Vec<SummaryRow>,
    files: &Vec<CodeFileRow>,
    overdue: bool,
) -> (r: ModuleStep)
    ensures
        r@ == step_of(
            project@,
            task@,
            match existing {
                Some(row) => Some(row@),
                None => None,
            },
            summaries_view(summaries@),
            rows_view(files@),
            overdue,
        ),
{
    let mut ws: Vec<Write> = Vec::new();
    assert(writes_view(ws@) =~= Seq::empty());
    if let Some(row) = existing {
        if !row.stale {
            return ModuleStep::Settled(ws);
        }
    }
    let dir: &str = task.dir.as_str();
    let level: &str = if task.is_repo {
        "repo"
    } else {
        "module"
    };
    assert(level@ == level_of(task@));
    if !is_ready(&task.children, summaries, files, overdue) {
        if existing.is_none() {
            note(&mut ws, Write::SeedPlaceholder(owned(dir), owned(level)));
            assert(writes_view(ws@) =~= seq![WriteView::SeedPlaceholder(dir@, level@)]);
        }
        return ModuleStep::Settled(ws);
    }
    let children = gather_children(&task.children, summaries);
    let digest = children_digest(&children);
    assert(children_view(children@).len() == children@.len());
    if children.len() == 0 {
        match existing {
            Some(row) => {
                let tc = chars_of(row.text.as_str());
                if tc.len() > 0 {
                    note(&mut ws, Write::EmptySummary(owned(dir)));
                    note(&mut ws, Write::InvalidateSource(index_source(project, dir)));
                }
            },
            None => {
                note(&mut ws, Write::SeedPlaceholder(owned(dir), owned(level)));
            },
        }
        note(&mut ws, Write::ClearStale(owned(dir), digest));
        assert(writes_view(ws@) =~= empty_writes(
            project@,
            task@,
            match existing {
                Some(row) => Some(row@),
                None => None,
            },
            digest@,
        ));
        return ModuleStep::Settled(ws);
    }
    if let Some(row) = existing {
        let tc = chars_of(row.text.as_str());
        if tc.len() > 0 && same_text(row.source_digest.as_str(), digest.as_str()) {
            note(&mut ws, Write::ClearStale(owned(dir), digest));
            assert(writes_view(ws@) =~= seq![WriteView::ClearStale(dir@, digest@)]);
            return ModuleStep::Settled(ws);
        }
    }
    ModuleStep::Ask(build_module_prompt(project, dir, task.is_repo, &children), digest)
}

/// Whether a reply is a summary: not blank, and no narration of tool calls.
pub open spec fn is_answer(reply: Seq<char>) -> bool {
    let text = trim(reply);
    text.len() > 0 && !(exists|i: int| 0 <= i < lines(text).len() && is_tool_line(#[trigger] lines(text)[i]))
}

/// What a reply to a module's summary call comes to: nothing where it is no
/// summary; else the summary is written, embedded and mirrored.
pub open spec fn answer_writes(project: Seq<char>, task: TaskView, digest: Seq<char>, reply: Seq<char>) -> Seq<WriteView> {
    let text = trim(reply);
    if is_answer(reply) {
        seq![
            WriteView::PutModuleSummary(task.dir, level_of(task), text, digest),
            WriteView::EmbedSummary(task.dir, text),
            WriteView::PutMirror(
                task.dir,
                mirror_source(project, task.dir),
                mirror(project, task.dir, level_of(task), text),
            ),
        ]
    } else {
        Seq::empty()
    }
}

/// What a reply to a module's summary call comes to.
pub fn module_reply_writes(project: &str, task: &ModuleTask, digest: &str, reply: &str) -> (r: Vec<Write>)
    ensures
        writes_view(r@) == answer_writes(project@, task@, digest@, reply@),
{
    let mut ws: Vec<Write> = Vec::new();
    let rc = chars_of(reply);
    let text = string_of(trimmed(rc.as_slice()));
    let tc = chars_of(text.as_str());
    if tc.len() == 0 || is_tool_transcript(text.as_str()) {
        assert(writes_view(ws@) =~= Seq::empty());
        return ws;
    }
    let dir: &str = task.dir.as_str();
    let level: &str = if task.is_repo {
        "repo"
    } else {
        "module"
    };
    note(&mut ws, Write::PutModuleSummary(owned(dir), owned(level), owned(text.as_str()), owned(digest)));
    note(&mut ws, Write::EmbedSummary(owned(dir), owned(text.as_str())));
    note(
        &mut ws,
        Write::PutMirror(owned(dir), index_source(project, dir), mirror_content(project, dir, level, text.as_str())),
    );
    assert(writes_view(ws@) =~= answer_writes(project@, task@, digest@, reply@));
    ws
}

/// A summary that was made from the very children it has now is not made
/// again, even once it is marked stale: it is current without a call.
pub proof fn law_no_call_when_nothing_below_changed(
    project: Seq<char>,
    task: TaskView,
    existing: SummaryView,
    summaries: Seq<SummaryView>,
    files: Seq<RowView>,
    overdue: bool,
)
    requires
        existing.source_digest == digest_of(gathered(task.children, summaries)),
        existing.text.len() > 0,
    ensures
        step_of(project, task, Some(existing), summaries, files, overdue) is Settled,
{
}

/// No call is made for a module none of whose children has text.
pub proof fn law_no_call_without_children_text(
    project: Seq<char>,
    task: TaskView,
    existing: Option<SummaryView>,
    summaries: Seq<SummaryView>,
    files: Seq<RowView>,
    overdue: bool,
)
    requires
        gathered(task.children, summaries).len() == 0,
    ensures
        step_of(project, task, existing, summaries, files, overdue) is Settled,
{
}

/// A module that is not overdue waits for each of its children.
pub proof fn law_module_waits_for_its_children(
    project: Seq<char>,
    task: TaskView,
    existing: Option<SummaryView>,
    summaries: Seq<SummaryView>,
    files: Seq<RowView>,
    i: int,
)
    requires
        0 <= i < task.children.len(),
        !is_fresh(task.children[i], summaries, files),
    ensures
        step_of(project, task, existing, summaries, files, false) is Settled,
{
}

} // verus!
