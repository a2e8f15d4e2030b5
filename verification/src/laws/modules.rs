//! Laws of the module summaries' tasks: nothing that is indexed is left out of
//! the summaries above it.

use vstd::prelude::*;

use crate::code_index::modules::{
    all_tasks, answer_writes, as_modules, cleanup_writes, concerns, depth1, depth1_children, depth1_of, depth1_parts,
    depth1_tasks, depth2, depth2_of, depth2_parts, depth2_tasks, depth_of, files_at, gathered, home_of, is_fresh,
    is_live_module, modules_in, orphan_writes, orphans, repo_children, repo_tasks, step_of, summary_of, with_text,
    ModuleSummary, SummaryView, TaskView,
};
use crate::code_index::changes::row_of;
use crate::code_index::reply::is_tool_line;
use crate::code_index::rows::RowView;
use crate::code_index::summary::{digest_of, mirror, module_prompt, ChildView};
use crate::code_index::writes::WriteView;
use crate::laws::changes::{is_slashless, lemma_first_piece};
use crate::laws::summary::{in_path_order, lemma_by_path_keeps, lemma_by_path_orders};
use crate::laws::writes::lemma_in_either;
use crate::order::lemma_sorted_set;
use crate::text::{find_char, lemma_find_char, lines, listed, split, starts_with, trim};

verus! {

// --- where a file belongs ---

proof fn lemma_no_slash(name: Seq<char>)
    requires
        is_slashless(name),
    ensures
        split(name, '/') == seq![name],
{
    lemma_find_char(name, '/');
    if find_char(name, '/') < name.len() {
        assert(name.contains(name[find_char(name, '/')]));
    }
}

/// Where a file's path puts it: into the repository, into a directory, or into
/// a directory of a directory, however deep it lies.
proof fn lemma_home(x: Seq<char>, y: Seq<char>, rest: Seq<char>)
    requires
        is_slashless(x),
        is_slashless(y),
    ensures
        home_of(x) == "/"@ && depth_of(x) == 0 && depth1_of(x) is None && depth2_of(x) is None,
        home_of(x + "/"@ + y) == x + "/"@ && depth_of(x + "/"@ + y) == 1,
        depth1_of(x + "/"@ + y) == Some(x + "/"@) && depth2_of(x + "/"@ + y) is None,
        home_of(x + "/"@ + y + "/"@ + rest) == x + "/"@ + y + "/"@ && depth_of(x + "/"@ + y + "/"@ + rest) == 2,
        depth1_of(x + "/"@ + y + "/"@ + rest) == Some(x + "/"@),
        depth2_of(x + "/"@ + y + "/"@ + rest) == Some(x + "/"@ + y + "/"@),
{
    reveal_strlit("/");
    lemma_no_slash(x);
    lemma_no_slash(y);
    let n = x.len() as int;
    let one = x + "/"@ + y;
    assert(one.take(n + 1) =~= x + "/"@);
    assert(one.skip(n + 1) =~= y);
    lemma_first_piece(one, x);
    assert(split(one, '/') =~= seq![x, y]);
    let two = x + "/"@ + y + "/"@ + rest;
    assert(two.take(n + 1) =~= x + "/"@);
    let behind = y + "/"@ + rest;
    assert(two.skip(n + 1) =~= behind);
    lemma_first_piece(two, x);
    assert(behind.take(y.len() as int + 1) =~= y + "/"@);
    lemma_first_piece(behind, y);
    assert(split(two, '/')[1] == y);
    assert(split(two, '/').len() >= 3);
}

proof fn lemma_files_at(rows: Seq<RowView>, dir: Seq<char>, depth: int, i: int)
    requires
        0 <= i < rows.len(),
        depth_of(rows[i].path) == depth,
        home_of(rows[i].path) == dir,
    ensures
        files_at(rows, dir, depth).contains((rows[i].path, true)),
    decreases rows.len(),
{
    let d = rows.drop_last();
    let all = files_at(rows, dir, depth);
    if i == rows.len() - 1 {
        assert(all.last() == (rows[i].path, true));
        assert(all.contains(all.last()));
    } else {
        assert(d[i] == rows[i]);
        lemma_files_at(d, dir, depth, i);
        let rest = files_at(d, dir, depth);
        let k = choose|k: int| 0 <= k < rest.len() && rest[k] == (rows[i].path, true);
        assert(all[k] == (rows[i].path, true));
    }
}

proof fn lemma_depth1_listed(rows: Seq<RowView>, i: int)
    requires
        0 <= i < rows.len(),
        depth1_of(rows[i].path) is Some,
    ensures
        listed(depth1_parts(rows), depth1_of(rows[i].path)->0),
    decreases rows.len(),
{
    let d = rows.drop_last();
    let x = depth1_of(rows[i].path)->0;
    let all = depth1_parts(rows);
    if i == rows.len() - 1 {
        assert(all[all.len() - 1] == x);
    } else {
        assert(d[i] == rows[i]);
        lemma_depth1_listed(d, i);
        let rest = depth1_parts(d);
        let k = choose|k: int| 0 <= k < rest.len() && #[trigger] rest[k] == x;
        assert(all[k] == x);
    }
}

proof fn lemma_depth2_listed(rows: Seq<RowView>, i: int)
    requires
        0 <= i < rows.len(),
        depth2_of(rows[i].path) is Some,
    ensures
        listed(depth2_parts(rows), depth2_of(rows[i].path)->0),
    decreases rows.len(),
{
    let d = rows.drop_last();
    let x = depth2_of(rows[i].path)->0;
    let all = depth2_parts(rows);
    if i == rows.len() - 1 {
        assert(all[all.len() - 1] == x);
    } else {
        assert(d[i] == rows[i]);
        lemma_depth2_listed(d, i);
        let rest = depth2_parts(d);
        let k = choose|k: int| 0 <= k < rest.len() && #[trigger] rest[k] == x;
        assert(all[k] == x);
    }
}

proof fn lemma_depth2_task(rows: Seq<RowView>, dirs: Seq<Seq<char>>, prefix: Option<Seq<char>>, d: Seq<char>)
    requires
        listed(dirs, d),
        concerns(prefix, d),
    ensures
        depth2_tasks(rows, dirs, prefix).contains(
            (TaskView { dir: d, is_repo: false, children: files_at(rows, d, 2) }),
        ),
    decreases dirs.len(),
{
    let q = dirs.drop_last();
    let t = TaskView { dir: d, is_repo: false, children: files_at(rows, d, 2) };
    let all = depth2_tasks(rows, dirs, prefix);
    let i = choose|i: int| 0 <= i < dirs.len() && #[trigger] dirs[i] == d;
    if i == dirs.len() - 1 {
        assert(all.last() == t);
        assert(all.contains(all.last()));
    } else {
        assert(q[i] == d);
        lemma_depth2_task(rows, q, prefix, d);
        let rest = depth2_tasks(rows, q, prefix);
        let k = choose|k: int| 0 <= k < rest.len() && rest[k] == t;
        assert(all[k] == t);
    }
}

proof fn lemma_depth1_task(rows: Seq<RowView>, dirs: Seq<Seq<char>>, prefix: Option<Seq<char>>, d: Seq<char>)
    requires
        listed(dirs, d),
        concerns(prefix, d),
    ensures
        depth1_tasks(rows, dirs, prefix).contains(
            (TaskView { dir: d, is_repo: false, children: depth1_children(rows, d) }),
        ),
    decreases dirs.len(),
{
    let q = dirs.drop_last();
    let t = TaskView { dir: d, is_repo: false, children: depth1_children(rows, d) };
    let all = depth1_tasks(rows, dirs, prefix);
    let i = choose|i: int| 0 <= i < dirs.len() && #[trigger] dirs[i] == d;
    if i == dirs.len() - 1 {
        assert(all.last() == t);
        assert(all.contains(all.last()));
    } else {
        assert(q[i] == d);
        lemma_depth1_task(rows, q, prefix, d);
        let rest = depth1_tasks(rows, q, prefix);
        let k = choose|k: int| 0 <= k < rest.len() && rest[k] == t;
        assert(all[k] == t);
    }
}

proof fn lemma_modules_in(dirs: Seq<Seq<char>>, d1: Seq<char>, d: Seq<char>)
    requires
        listed(dirs, d),
        split(d, '/')[0] + "/"@ == d1,
    ensures
        modules_in(dirs, d1).contains((d, false)),
    decreases dirs.len(),
{
    let q = dirs.drop_last();
    let all = modules_in(dirs, d1);
    let i = choose|i: int| 0 <= i < dirs.len() && #[trigger] dirs[i] == d;
    if i == dirs.len() - 1 {
        assert(all.last() == (d, false));
        assert(all.contains(all.last()));
    } else {
        assert(q[i] == d);
        lemma_modules_in(q, d1, d);
        let rest = modules_in(q, d1);
        let k = choose|k: int| 0 <= k < rest.len() && rest[k] == (d, false);
        assert(all[k] == (d, false));
    }
}

/// Whether a task for the directory has the child.
pub open spec fn has_child(ts: Seq<TaskView>, dir: Seq<char>, child: (Seq<char>, bool)) -> bool {
    exists|i: int| 0 <= i < ts.len() && (#[trigger] ts[i]).dir == dir && ts[i].children.contains(child)
}

proof fn lemma_has_child(a: Seq<TaskView>, b: Seq<TaskView>, c: Seq<TaskView>, t: TaskView, child: (Seq<char>, bool))
    requires
        a.contains(t) || b.contains(t) || c.contains(t),
        t.children.contains(child),
    ensures
        has_child(a + b + c, t.dir, child),
{
    let all = a + b + c;
    if a.contains(t) {
        let i = choose|i: int| 0 <= i < a.len() && a[i] == t;
        assert(all[i] == t);
    } else if b.contains(t) {
        let i = choose|i: int| 0 <= i < b.len() && b[i] == t;
        assert(all[a.len() + i] == t);
    } else {
        let i = choose|i: int| 0 <= i < c.len() && c[i] == t;
        assert(all[a.len() + b.len() + i] == t);
    }
}

/// Every file is a child of the module that it lies in: a file `x` of the
/// repository, `x/y` of `x/`, and whatever lies under `x/y/` of that.
pub proof fn law_every_file_is_summarised_above(
    rows: Seq<RowView>,
    i: int,
    x: Seq<char>,
    y: Seq<char>,
    rest: Seq<char>,
)
    requires
        0 <= i < rows.len(),
        is_slashless(x),
        is_slashless(y),
    ensures
        rows[i].path == x ==> has_child(all_tasks(rows, None), "/"@, (x, true)),
        rows[i].path == x + "/"@ + y ==> has_child(all_tasks(rows, None), x + "/"@, (rows[i].path, true)),
        rows[i].path == x + "/"@ + y + "/"@ + rest ==> has_child(all_tasks(rows, None), x + "/"@ + y + "/"@, (rows[i].path, true)),
{
    let none: Option<Seq<char>> = None;
    let a = depth2_tasks(rows, depth2(rows), none);
    let b = depth1_tasks(rows, depth1(rows), none);
    let c = repo_tasks(rows, none);
    let p = rows[i].path;
    lemma_home(x, y, rest);
    lemma_sorted_set(depth1_parts(rows));
    lemma_sorted_set(depth2_parts(rows));
    lemma_files_at(rows, home_of(p), depth_of(p), i);
    let kid = (p, true);
    if p == x {
        let t = TaskView { dir: "/"@, is_repo: true, children: repo_children(rows) };
        let f = files_at(rows, "/"@, 0);
        let k = choose|k: int| 0 <= k < f.len() && f[k] == kid;
        assert(repo_children(rows)[k] == kid);
        assert(c[0] == t);
        lemma_has_child(a, b, c, t, kid);
    }
    if p == x + "/"@ + y {
        let d = x + "/"@;
        lemma_depth1_listed(rows, i);
        assert(listed(depth1(rows), d));
        let t = TaskView { dir: d, is_repo: false, children: depth1_children(rows, d) };
        lemma_depth1_task(rows, depth1(rows), none, d);
        let f = files_at(rows, d, 1);
        let k = choose|k: int| 0 <= k < f.len() && f[k] == kid;
        assert(depth1_children(rows, d)[k] == kid);
        lemma_has_child(a, b, c, t, kid);
    }
    if p == x + "/"@ + y + "/"@ + rest {
        let d = x + "/"@ + y + "/"@;
        lemma_depth2_listed(rows, i);
        assert(listed(depth2(rows), d));
        let t = TaskView { dir: d, is_repo: false, children: files_at(rows, d, 2) };
        lemma_depth2_task(rows, depth2(rows), none, d);
        lemma_has_child(a, b, c, t, kid);
    }
}

/// Every module is a child of the one above it: `x/y/` of `x/`, and `x/` of
/// the repository.
pub proof fn law_every_module_is_summarised_above(
    rows: Seq<RowView>,
    i: int,
    x: Seq<char>,
    y: Seq<char>,
    rest: Seq<char>,
)
    requires
        0 <= i < rows.len(),
        is_slashless(x),
        is_slashless(y),
    ensures
        rows[i].path == x + "/"@ + y ==> has_child(all_tasks(rows, None), "/"@, (x + "/"@, false)),
        rows[i].path == x + "/"@ + y + "/"@ + rest ==> has_child(all_tasks(rows, None), "/"@, (x + "/"@, false)) && has_child(
            all_tasks(rows, None),
            x + "/"@,
            (x + "/"@ + y + "/"@, false),
        ),
{
    let none: Option<Seq<char>> = None;
    let a = depth2_tasks(rows, depth2(rows), none);
    let b = depth1_tasks(rows, depth1(rows), none);
    let c = repo_tasks(rows, none);
    let p = rows[i].path;
    lemma_home(x, y, rest);
    lemma_sorted_set(depth1_parts(rows));
    lemma_sorted_set(depth2_parts(rows));
    let d = x + "/"@;
    if p == x + "/"@ + y || p == x + "/"@ + y + "/"@ + rest {
        lemma_depth1_listed(rows, i);
        assert(listed(depth1(rows), d));
        let ds = depth1(rows);
        let k = choose|k: int| 0 <= k < ds.len() && #[trigger] ds[k] == d;
        let f = files_at(rows, "/"@, 0);
        let t = TaskView { dir: "/"@, is_repo: true, children: repo_children(rows) };
        assert(as_modules(ds)[k] == (d, false));
        assert(repo_children(rows)[f.len() + k] == (d, false));
        assert(c[0] == t);
        lemma_has_child(a, b, c, t, (d, false));
    }
    if p == x + "/"@ + y + "/"@ + rest {
        let e = x + "/"@ + y + "/"@;
        lemma_depth2_listed(rows, i);
        assert(listed(depth2(rows), e));
        lemma_depth1_listed(rows, i);
        assert(listed(depth1(rows), d));
        reveal_strlit("/");
        assert(e.take(x.len() as int + 1) =~= x + "/"@);
        lemma_first_piece(e, x);
        lemma_modules_in(depth2(rows), d, e);
        let f = files_at(rows, d, 1);
        let m = modules_in(depth2(rows), d);
        let k = choose|k: int| 0 <= k < m.len() && m[k] == (e, false);
        assert(depth1_children(rows, d)[f.len() + k] == (e, false));
        let t = TaskView { dir: d, is_repo: false, children: depth1_children(rows, d) };
        lemma_depth1_task(rows, depth1(rows), none, d);
        lemma_has_child(a, b, c, t, (e, false));
    }
}

/// A run over a prefix takes up of a whole run's modules, except the
/// repository, those that the prefix concerns.
pub proof fn law_prefix_picks_modules(rows: Seq<RowView>, prefix: Seq<char>)
    ensures
        all_tasks(rows, Some(prefix)) == (depth2_tasks(rows, depth2(rows), None) + depth1_tasks(rows, depth1(rows), None)).filter(
            |t: TaskView| concerns(Some(prefix), t.dir),
        ),
        rows.len() > 0 ==> all_tasks(rows, None) == (depth2_tasks(rows, depth2(rows), None) + depth1_tasks(
            rows,
            depth1(rows),
            None,
        )).push((TaskView { dir: "/"@, is_repo: true, children: repo_children(rows) })),
{
    let keep = |t: TaskView| concerns(Some(prefix), t.dir);
    let a = depth2_tasks(rows, depth2(rows), None);
    let b = depth1_tasks(rows, depth1(rows), None);
    lemma_depth2_filter(rows, depth2(rows), prefix);
    lemma_depth1_filter(rows, depth1(rows), prefix);
    Seq::filter_distributes_over_add(a, b, keep);
    assert(all_tasks(rows, Some(prefix)) =~= a.filter(keep) + b.filter(keep));
    if rows.len() > 0 {
        assert(all_tasks(rows, None) =~= (a + b).push(TaskView { dir: "/"@, is_repo: true, children: repo_children(rows) }));
    }
}

proof fn lemma_depth2_filter(rows: Seq<RowView>, dirs: Seq<Seq<char>>, prefix: Seq<char>)
    ensures
        depth2_tasks(rows, dirs, Some(prefix)) == depth2_tasks(rows, dirs, None).filter(
            |t: TaskView| concerns(Some(prefix), t.dir),
        ),
    decreases dirs.len(),
{
    reveal(Seq::filter);
    if dirs.len() > 0 {
        lemma_depth2_filter(rows, dirs.drop_last(), prefix);
        let w = depth2_tasks(rows, dirs, None);
        assert(w.drop_last() =~= depth2_tasks(rows, dirs.drop_last(), None));
    }
}

proof fn lemma_depth1_filter(rows: Seq<RowView>, dirs: Seq<Seq<char>>, prefix: Seq<char>)
    ensures
        depth1_tasks(rows, dirs, Some(prefix)) == depth1_tasks(rows, dirs, None).filter(
            |t: TaskView| concerns(Some(prefix), t.dir),
        ),
    decreases dirs.len(),
{
    reveal(Seq::filter);
    if dirs.len() > 0 {
        lemma_depth1_filter(rows, dirs.drop_last(), prefix);
        let w = depth1_tasks(rows, dirs, None);
        assert(w.drop_last() =~= depth1_tasks(rows, dirs.drop_last(), None));
    }
}

/// The modules that a prefix concerns are the directory that it is and those
/// in it.
pub proof fn law_modules_of_a_prefix(prefix: Seq<char>, dir: Seq<char>)
    requires
        prefix.len() > 0,
        prefix.last() != '/',
        dir.len() > 0,
        dir.last() != '/',
    ensures
        concerns(Some(prefix), dir + "/"@) <==> dir == prefix || starts_with(dir, prefix + "/"@),
{
    reveal_strlit("/");
    assert((dir + "/"@).drop_last() =~= dir);
    assert((dir + "/"@).last() == '/');
    assert(crate::text::trim_end_of(dir, '/', '/') == dir);
    assert(crate::text::trim_end_of(dir + "/"@, '/', '/') == dir);
    assert(crate::text::trim_end_of(prefix, '/', '/') == prefix);
    assert(prefix.push('/') =~= prefix + "/"@);
}

// --- what a module is made of ---

/// Whether a child has a summary that is not blank.
pub open spec fn is_told(child: (Seq<char>, bool), summaries: Seq<SummaryView>) -> bool {
    summary_of(summaries, child.0) is Some && trim((summary_of(summaries, child.0)->0).text).len() > 0
}

/// What a child that has a summary contributes.
pub open spec fn told(child: (Seq<char>, bool), summaries: Seq<SummaryView>) -> ChildView {
    ChildView {
        path: child.0,
        digest: (summary_of(summaries, child.0)->0).source_digest,
        text: (summary_of(summaries, child.0)->0).text,
    }
}

/// A module is made of the summaries of all its children that have one, in the
/// order of their paths.
pub proof fn law_every_told_child_is_gathered(children: Seq<(Seq<char>, bool)>, summaries: Seq<SummaryView>)
    ensures
        gathered(children, summaries).to_multiset() == children.filter(|c: (Seq<char>, bool)| is_told(c, summaries)).map_values(
            |c: (Seq<char>, bool)| told(c, summaries),
        ).to_multiset(),
        in_path_order(gathered(children, summaries)),
{
    lemma_by_path_keeps(with_text(children, summaries));
    lemma_by_path_orders(with_text(children, summaries));
    lemma_with_text(children, summaries);
}

proof fn lemma_with_text(children: Seq<(Seq<char>, bool)>, summaries: Seq<SummaryView>)
    ensures
        with_text(children, summaries) == children.filter(|c: (Seq<char>, bool)| is_told(c, summaries)).map_values(
            |c: (Seq<char>, bool)| told(c, summaries),
        ),
    decreases children.len(),
{
    reveal(Seq::filter);
    let keep = |c: (Seq<char>, bool)| is_told(c, summaries);
    let show = |c: (Seq<char>, bool)| told(c, summaries);
    if children.len() > 0 {
        lemma_with_text(children.drop_last(), summaries);
        let c = children.last();
        let g = children.drop_last().filter(keep);
        assert(g.push(c).map_values(show) =~= g.map_values(show).push(show(c)));
    } else {
        assert(with_text(children, summaries) =~= children.filter(keep).map_values(show));
    }
}

/// A file is settled once its summary is of its blob or two calls for one were
/// in vain; a module, once it has a summary that is not stale.
pub proof fn law_settled_children(path: Seq<char>, summaries: Seq<SummaryView>, files: Seq<RowView>)
    ensures
        is_fresh((path, false), summaries, files) <==> summary_of(summaries, path) is Some && !(summary_of(
            summaries,
            path,
        )->0).stale,
        is_fresh((path, true), summaries, files) <==> row_of(files, path) is Some && ((row_of(files, path)->0).summary_attempts
            >= 2 || (summary_of(summaries, path) is Some && (summary_of(summaries, path)->0).source_digest == (row_of(
            files,
            path,
        )->0).blob)),
{
}

/// A module gets a call exactly where its summary is missing or stale, its
/// children are settled or it is overdue, some child has a summary, and these
/// are not the ones that its own summary was made of. The call is about those
/// children.
pub proof fn law_stale_module_gets_a_call(
    project: Seq<char>,
    task: TaskView,
    existing: Option<SummaryView>,
    summaries: Seq<SummaryView>,
    files: Seq<RowView>,
    overdue: bool,
)
    ensures
        ({
            let cs = gathered(task.children, summaries);
            let step = step_of(project, task, existing, summaries, files, overdue);
            &&& step is Ask <==> (existing is None || (existing->0).stale) && (overdue || forall|i: int|
                0 <= i < task.children.len() ==> is_fresh(#[trigger] task.children[i], summaries, files)) && cs.len() > 0 && !(
            existing is Some && (existing->0).source_digest == digest_of(cs) && (existing->0).text.len() > 0)
            &&& step is Ask ==> step->Ask_0 == module_prompt(project, task.dir, task.is_repo, cs) && step->Ask_1 == digest_of(cs)
        }),
{
}

/// A module without a call is settled so: one that is current stays as it is;
/// one that waits for its children gets a placeholder where it has nothing; one
/// whose children say nothing loses what it said and is current; and one whose
/// summary is of these very children is current again.
pub proof fn law_module_without_a_call_is_settled(
    project: Seq<char>,
    task: TaskView,
    existing: Option<SummaryView>,
    summaries: Seq<SummaryView>,
    files: Seq<RowView>,
    overdue: bool,
)
    ensures
        ({
            let cs = gathered(task.children, summaries);
            let step = step_of(project, task, existing, summaries, files, overdue);
            let ws = step->Settled_0;
            let current = existing is Some && !(existing->0).stale;
            let ready = overdue || forall|i: int|
                0 <= i < task.children.len() ==> is_fresh(#[trigger] task.children[i], summaries, files);
            let level = if task.is_repo { "repo"@ } else { "module"@ };
            &&& current ==> step is Settled && ws.len() == 0
            &&& !current && !ready && existing is Some ==> step is Settled && ws.len() == 0
            &&& !current && !ready && existing is None ==> step is Settled && ws == seq![
                WriteView::SeedPlaceholder(task.dir, level),
            ]
            &&& !current && ready && cs.len() == 0 ==> step is Settled && ws.last() == WriteView::ClearStale(
                task.dir,
                digest_of(cs),
            )
            &&& !current && ready && cs.len() == 0 && existing is Some && (existing->0).text.len() > 0 ==> ws.contains(
                WriteView::EmptySummary(task.dir),
            ) && ws.contains(WriteView::InvalidateSource("code-index:"@ + project + ":"@ + task.dir))
            &&& !current && ready && cs.len() == 0 && existing is None ==> ws.contains(
                WriteView::SeedPlaceholder(task.dir, level),
            )
            &&& !current && ready && cs.len() > 0 && existing is Some && (existing->0).source_digest == digest_of(cs) && (
            existing->0).text.len() > 0 ==> step is Settled && ws == seq![WriteView::ClearStale(task.dir, digest_of(cs))]
        }),
{
    let ws = step_of(project, task, existing, summaries, files, overdue)->Settled_0;
    if ws.len() > 0 {
        assert(ws.contains(ws[0]));
    }
    if ws.len() > 1 {
        assert(ws.contains(ws[1]));
    }
}

/// A reply that says something and narrates no tool call becomes the module's
/// summary, without the white space around it, and its lead the memory that
/// mirrors it; any other reply writes nothing.
pub proof fn law_module_reply_is_kept(project: Seq<char>, task: TaskView, digest: Seq<char>, reply: Seq<char>)
    ensures
        ({
            let ws = answer_writes(project, task, digest, reply);
            let level = if task.is_repo { "repo"@ } else { "module"@ };
            let blank = trim(reply).len() == 0;
            let narrates = exists|i: int| 0 <= i < lines(trim(reply)).len() && is_tool_line(#[trigger] lines(trim(reply))[i]);
            &&& !blank && !narrates ==> ws.contains(WriteView::PutModuleSummary(task.dir, level, trim(reply), digest))
                && ws.contains(WriteView::EmbedSummary(task.dir, trim(reply))) && ws.contains(
                WriteView::PutMirror(
                    task.dir,
                    "code-index:"@ + project + ":"@ + task.dir,
                    mirror(project, task.dir, level, trim(reply)),
                ),
            )
            &&& blank || narrates ==> ws.len() == 0
        }),
{
    let ws = answer_writes(project, task, digest, reply);
    if ws.len() > 0 {
        assert(ws.contains(ws[0]) && ws.contains(ws[1]) && ws.contains(ws[2]));
    }
}

// --- what is cleaned up ---

/// Every module summary without a file under it goes, with its memory; the
/// others stay.
pub proof fn law_orphaned_modules_go(project: Seq<char>, existing: Seq<ModuleSummary>, rows: Seq<RowView>)
    ensures
        forall|i: int|
            0 <= i < existing.len() && !is_live_module((#[trigger] existing[i]).path@, existing[i].level@, rows)
                ==> cleanup_writes(project, existing, rows).contains(WriteView::DeleteSummary(existing[i].path@))
                && cleanup_writes(project, existing, rows).contains(
                WriteView::InvalidateSource("code-index:"@ + project + ":"@ + existing[i].path@),
            ) && (existing[i].memory_id is Some ==> cleanup_writes(project, existing, rows).contains(
                WriteView::InvalidateMemory(existing[i].memory_id->0),
            )),
        forall|p: Seq<char>|
            cleanup_writes(project, existing, rows).contains(#[trigger] deleted_summary(p)) ==> exists|i: int|
                0 <= i < existing.len() && (#[trigger] existing[i]).path@ == p && !is_live_module(p, existing[i].level@, rows),
        orphans(existing, rows) == existing.filter(|m: ModuleSummary| !is_live_module(m.path@, m.level@, rows)).len(),
    decreases existing.len(),
{
    reveal(Seq::filter);
    let all = cleanup_writes(project, existing, rows);
    if existing.len() > 0 {
        let d = existing.drop_last();
        let m = existing.last();
        let rest = cleanup_writes(project, d, rows);
        let own = orphan_writes(project, m);
        law_orphaned_modules_go(project, d, rows);
        let gone = !is_live_module(m.path@, m.level@, rows);
        assert forall|w: WriteView| #[trigger] all.contains(w) <==> rest.contains(w) || (gone && own.contains(w)) by {
            lemma_in_either(rest, own, w);
        }
        assert(existing[existing.len() - 1] == m);
        assert(own[0] == WriteView::InvalidateSource("code-index:"@ + project + ":"@ + m.path@));
        assert(own.last() == WriteView::DeleteSummary(m.path@));
        assert(own.contains(own[0]) && own.contains(own.last()) && own.contains(own[1]));
        assert forall|i: int|
            0 <= i < existing.len() && !is_live_module((#[trigger] existing[i]).path@, existing[i].level@, rows) implies all.contains(
            WriteView::DeleteSummary(existing[i].path@),
        ) && all.contains(WriteView::InvalidateSource("code-index:"@ + project + ":"@ + existing[i].path@)) && (
        existing[i].memory_id is Some ==> all.contains(WriteView::InvalidateMemory(existing[i].memory_id->0))) by {
            if i < d.len() {
                assert(d[i] == existing[i]);
            }
        }
        assert forall|p: Seq<char>| all.contains(#[trigger] deleted_summary(p)) implies exists|i: int|
            0 <= i < existing.len() && (#[trigger] existing[i]).path@ == p && !is_live_module(p, existing[i].level@, rows) by {
            if rest.contains(deleted_summary(p)) {
                let i = choose|i: int|
                    0 <= i < d.len() && (#[trigger] d[i]).path@ == p && !is_live_module(p, d[i].level@, rows);
                assert(existing[i] == d[i]);
            } else {
                let k = choose|k: int| 0 <= k < own.len() && own[k] == deleted_summary(p);
                assert(k == own.len() - 1);
            }
        }
    }
}

/// The write that deletes the summary of a path.
pub open spec fn deleted_summary(p: Seq<char>) -> WriteView {
    WriteView::DeleteSummary(p)
}

/// A module is live while some file lies under it; the repository, while it
/// has any.
pub proof fn law_live_modules(rows: Seq<RowView>, i: int, x: Seq<char>, y: Seq<char>, rest: Seq<char>)
    requires
        0 <= i < rows.len(),
        is_slashless(x),
        is_slashless(y),
        rows[i].path == x + "/"@ + y + "/"@ + rest,
    ensures
        is_live_module("/"@, "repo"@, rows),
        is_live_module(x + "/"@, "module"@, rows),
        is_live_module(x + "/"@ + y + "/"@, "module"@, rows),
        !is_live_module("/"@, "repo"@, Seq::empty()),
        !is_live_module(x + "/"@, "module"@, Seq::empty()),
{
    reveal_strlit("repo");
    reveal_strlit("module");
    assert("module"@.len() == 6 && "repo"@.len() == 4);
    lemma_home(x, y, rest);
    lemma_sorted_set(depth1_parts(rows));
    lemma_sorted_set(depth2_parts(rows));
    lemma_depth1_listed(rows, i);
    lemma_depth2_listed(rows, i);
    let none: Seq<RowView> = Seq::empty();
    lemma_sorted_set(depth1_parts(none));
    lemma_sorted_set(depth2_parts(none));
    assert(!listed(depth1_parts(none), x + "/"@));
    assert(!listed(depth2_parts(none), x + "/"@));
}

} // verus!
