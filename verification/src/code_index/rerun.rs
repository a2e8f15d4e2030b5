//! A run over a project that a complete run has left as it is: what the stages
//! of the first leave behind, and that the second then asks the model nothing.

use vstd::prelude::*;

use crate::code_index::changes::{
    after_run, ancestors, belonging, blobs_of_rows, changes_of, distinct_renames, law_nothing_to_do_once_mirrored,
    law_run_mirrors_what_belongs, mirrors, one_file_per_path, out_of_scope, path_hits, paths_of, row_blob, row_of, top_parts,
    with_chunk_hits,
};
use crate::code_index::job::{
    candidates, header_step_of, law_candidates_come_by_path, rows_in_prefix, summary_step_of, unchunked_writes, BudgetView,
    HeaderView, SummaryStep,
};
use crate::code_index::modules::{
    all_fresh, all_tasks, answer_writes, as_modules, cleanup_writes, depth1, depth1_children, depth1_tasks, depth2,
    depth2_tasks, empty_writes, files_at, is_answer, is_fresh, is_live_module, level_of, modules_in, orphans,
    repo_children, repo_tasks, step_of, summary_of, ModuleSummary, StepView, SummaryView, TaskView,
};
use crate::code_index::reply::{reply_headers, reply_summary, ChunkMeta};
use crate::code_index::rows::{one_row_per_path, FileView, RowView, ScopeView};
use crate::code_index::scope::{covered, has_files_under, is_stale_scope, row_for, scope_due, stale_scopes, Category};
use crate::code_index::secrets::{content_label, path_label, secret_label};
use crate::code_index::stages::{budget_after, first_stage, next_run, no_counts, Ending, Event, ProjectRun, Stage};
use crate::code_index::writes::{
    embed_writes, finalize_writes, header_writes, hush_writes, summary_writes, WriteView, SUMMARY_GIVE_UP_ATTEMPTS,
};
use crate::order::sorted_set;
use crate::text::{listed, split};

verus! {

// --- what the writes do to the stored summaries ---

/// The summaries with one more; the last one of a path is the one that counts.
pub open spec fn put(s: Seq<SummaryView>, x: SummaryView) -> Seq<SummaryView> {
    s.push(x)
}

/// The summaries, with those of the paths marked as stale.
pub open spec fn staled(s: Seq<SummaryView>, paths: Seq<Seq<char>>) -> Seq<SummaryView> {
    Seq::new(
        s.len(),
        |i: int|
            if listed(paths, s[i].path) {
                SummaryView { stale: true, ..s[i] }
            } else {
                s[i]
            },
    )
}

/// What a write of a summary stage does to the stored summaries.
pub open spec fn stored(s: Seq<SummaryView>, w: WriteView) -> Seq<SummaryView> {
    match w {
        WriteView::PutSummary(p, text, blob) => put(
            s,
            SummaryView { path: p, text, source_digest: blob, stale: false },
        ),
        WriteView::PutModuleSummary(p, level, text, digest) => put(
            s,
            SummaryView { path: p, text, source_digest: digest, stale: false },
        ),
        WriteView::SeedPlaceholder(p, level) => put(
            s,
            SummaryView { path: p, text: Seq::empty(), source_digest: Seq::empty(), stale: true },
        ),
        WriteView::EmptySummary(p) => match summary_of(s, p) {
            Some(row) => put(s, SummaryView { text: Seq::empty(), stale: true, ..row }),
            None => s,
        },
        WriteView::ClearStale(p, digest) => match summary_of(s, p) {
            Some(row) => put(s, SummaryView { source_digest: digest, stale: false, ..row }),
            None => s,
        },
        WriteView::MarkStale(paths) => staled(s, paths),
        _ => s,
    }
}

/// What the writes of a summary stage do to the stored summaries.
pub open spec fn stored_all(s: Seq<SummaryView>, ws: Seq<WriteView>) -> Seq<SummaryView>
    decreases ws.len(),
{
    if ws.len() == 0 {
        s
    } else {
        stored(stored_all(s, ws.drop_last()), ws.last())
    }
}

proof fn lemma_stored_push(s: Seq<SummaryView>, ws: Seq<WriteView>, w: WriteView)
    ensures
        stored_all(s, ws.push(w)) == stored(stored_all(s, ws), w),
{
    assert(ws.push(w).drop_last() =~= ws);
}

proof fn lemma_stored_none(s: Seq<SummaryView>)
    ensures
        stored_all(s, Seq::empty()) == s,
{
}

proof fn lemma_put(s: Seq<SummaryView>, x: SummaryView, p: Seq<char>)
    ensures
        summary_of(put(s, x), p) == if x.path == p {
            Some(x)
        } else {
            summary_of(s, p)
        },
{
    assert(put(s, x).drop_last() =~= s);
}

proof fn lemma_summary_path(s: Seq<SummaryView>, p: Seq<char>)
    ensures
        summary_of(s, p) is Some ==> (summary_of(s, p)->0).path == p,
    decreases s.len(),
{
    if s.len() > 0 && s.last().path != p {
        lemma_summary_path(s.drop_last(), p);
    }
}

proof fn lemma_staled(s: Seq<SummaryView>, paths: Seq<Seq<char>>, p: Seq<char>)
    requires
        !listed(paths, p),
    ensures
        summary_of(staled(s, paths), p) == summary_of(s, p),
    decreases s.len(),
{
    if s.len() > 0 {
        assert(staled(s, paths).drop_last() =~= staled(s.drop_last(), paths));
        lemma_staled(s.drop_last(), paths, p);
    }
}

/// Whether a path names a file: a directory's ends in a slash.
pub open spec fn is_file_path(p: Seq<char>) -> bool {
    p.len() > 0 && p.last() != '/'
}

// --- the file summaries ---

/// The digest of the summary of a path, where it has one.
pub open spec fn digest_at(s: Seq<SummaryView>, path: Seq<char>) -> Option<Seq<char>> {
    match summary_of(s, path) {
        Some(row) => Some(row.source_digest),
        None => None,
    }
}

/// Whether the summary pass has nothing more to ask about a file.
pub open spec fn is_done(s: Seq<SummaryView>, row: RowView) -> bool {
    digest_at(s, row.path) == Some(row.blob) || row.summary_attempts >= SUMMARY_GIVE_UP_ATTEMPTS
}

/// The summaries once the summary pass has been over the first `n` files, with
/// the reply that each call gets.
pub open spec fn after_files(
    s: Seq<SummaryView>,
    files: Seq<RowView>,
    n: int,
    replies: spec_fn(Seq<char>) -> Seq<char>,
) -> Seq<SummaryView>
    decreases n,
{
    if n <= 0 {
        s
    } else {
        let sofar = after_files(s, files, n - 1, replies);
        let f = files[n - 1];
        if is_done(sofar, f) {
            sofar
        } else {
            stored_all(sofar, summary_writes(f.path, f.blob, reply_summary(replies(f.path))))
        }
    }
}

proof fn lemma_ancestors_are_dirs(path: Seq<char>, p: Seq<char>)
    requires
        is_file_path(p),
    ensures
        !listed(ancestors(path), p),
{
    reveal_strlit("/");
    let a = ancestors(path);
    let c = split(path, '/');
    if listed(a, p) {
        let i = choose|i: int| 0 <= i < a.len() && #[trigger] a[i] == p;
        if c.len() <= 1 {
            assert(p == "/"@);
        } else if i == 0 {
            assert(p == c[0] + "/"@);
            assert(p.last() == '/');
        } else if i == a.len() - 1 {
            assert(p == "/"@);
        } else {
            assert(p == c[0] + "/"@ + c[1] + "/"@);
            assert(p.last() == '/');
        }
    }
}

proof fn lemma_summarized(s: Seq<SummaryView>, path: Seq<char>, blob: Seq<char>, text: Seq<char>, p: Seq<char>)
    requires
        is_file_path(p),
    ensures
        summary_of(stored_all(s, summary_writes(path, blob, Some(text))), p) == if p == path {
            Some(SummaryView { path, text, source_digest: blob, stale: false })
        } else {
            summary_of(s, p)
        },
{
    let w1 = WriteView::PutSummary(path, text, blob);
    let w2 = WriteView::EmbedSummary(path, text);
    let w3 = WriteView::MarkStale(ancestors(path));
    let none: Seq<WriteView> = Seq::empty();
    let x = SummaryView { path, text, source_digest: blob, stale: false };
    assert(summary_writes(path, blob, Some(text)) =~= none.push(w1).push(w2).push(w3));
    lemma_stored_push(s, none, w1);
    lemma_stored_push(s, none.push(w1), w2);
    lemma_stored_push(s, none.push(w1).push(w2), w3);
    lemma_put(s, x, p);
    lemma_ancestors_are_dirs(path, p);
    lemma_staled(put(s, x), ancestors(path), p);
}

proof fn lemma_after_files(
    s: Seq<SummaryView>,
    files: Seq<RowView>,
    n: int,
    replies: spec_fn(Seq<char>) -> Seq<char>,
)
    requires
        0 <= n <= files.len(),
        forall|i: int| 0 <= i < files.len() ==> is_file_path((#[trigger] files[i]).path),
        forall|i: int, j: int|
            0 <= i < files.len() && 0 <= j < files.len() && (#[trigger] files[i]).path == (#[trigger] files[j]).path
                ==> files[i] == files[j],
        forall|i: int| 0 <= i < files.len() ==> reply_summary(replies((#[trigger] files[i]).path)) is Some,
    ensures
        forall|i: int| 0 <= i < n ==> is_done(after_files(s, files, n, replies), #[trigger] files[i]),
    decreases n,
{
    if n > 0 {
        lemma_after_files(s, files, n - 1, replies);
        let sofar = after_files(s, files, n - 1, replies);
        let f = files[n - 1];
        if !is_done(sofar, f) {
            let text = reply_summary(replies(f.path))->0;
            assert forall|i: int| 0 <= i < n implies is_done(
                after_files(s, files, n, replies),
                #[trigger] files[i],
            ) by {
                lemma_summarized(sofar, f.path, f.blob, text, files[i].path);
                if i < n - 1 {
                    assert(is_done(sofar, files[i]));
                }
            }
        }
    }
}

// --- the module summaries ---

/// The summaries once the module pass has been over the first `n` tasks, with
/// the reply that each prompt gets.
pub open spec fn after_modules(
    project: Seq<char>,
    tasks: Seq<TaskView>,
    n: int,
    s: Seq<SummaryView>,
    files: Seq<RowView>,
    overdue: spec_fn(Seq<char>) -> bool,
    replies: spec_fn(Seq<char>) -> Seq<char>,
) -> Seq<SummaryView>
    decreases n,
{
    if n <= 0 {
        s
    } else {
        let sofar = after_modules(project, tasks, n - 1, s, files, overdue, replies);
        let t = tasks[n - 1];
        match step_of(project, t, summary_of(sofar, t.dir), sofar, files, overdue(t.dir)) {
            StepView::Settled(ws) => stored_all(sofar, ws),
            StepView::Ask(prompt, digest) => stored_all(sofar, answer_writes(project, t, digest, replies(prompt))),
        }
    }
}

/// Whether the summary of a directory stands.
pub open spec fn is_current(s: Seq<SummaryView>, dir: Seq<char>) -> bool {
    summary_of(s, dir) is Some && !(summary_of(s, dir)->0).stale
}

proof fn lemma_cleared(s: Seq<SummaryView>, dir: Seq<char>, digest: Seq<char>)
    requires
        summary_of(s, dir) is Some,
    ensures
        is_current(stored(s, WriteView::ClearStale(dir, digest)), dir),
        forall|p: Seq<char>|
            p != dir ==> #[trigger] summary_of(stored(s, WriteView::ClearStale(dir, digest)), p) == summary_of(s, p),
{
    let row = summary_of(s, dir)->0;
    let x = SummaryView { source_digest: digest, stale: false, ..row };
    lemma_summary_path(s, dir);
    lemma_put(s, x, dir);
    assert forall|p: Seq<char>| p != dir implies #[trigger] summary_of(put(s, x), p) == summary_of(s, p) by {
        lemma_put(s, x, p);
    }
}

proof fn lemma_emptied(project: Seq<char>, t: TaskView, s: Seq<SummaryView>, digest: Seq<char>)
    ensures
        is_current(stored_all(s, empty_writes(project, t, summary_of(s, t.dir), digest)), t.dir),
        forall|p: Seq<char>|
            p != t.dir ==> #[trigger] summary_of(
                stored_all(s, empty_writes(project, t, summary_of(s, t.dir), digest)),
                p,
            ) == summary_of(s, p),
{
    let existing = summary_of(s, t.dir);
    let ws = empty_writes(project, t, existing, digest);
    let none: Seq<WriteView> = Seq::empty();
    let clear = WriteView::ClearStale(t.dir, digest);
    lemma_summary_path(s, t.dir);
    match existing {
        Some(row) => {
            if row.text.len() > 0 {
                let w1 = WriteView::EmptySummary(t.dir);
                let w2 = WriteView::InvalidateSource(crate::code_index::writes::mirror_source(project, t.dir));
                assert(ws =~= none.push(w1).push(w2).push(clear));
                lemma_stored_push(s, none, w1);
                lemma_stored_push(s, none.push(w1), w2);
                lemma_stored_push(s, none.push(w1).push(w2), clear);
                let x = SummaryView { text: Seq::empty(), stale: true, ..row };
                let mid = put(s, x);
                lemma_put(s, x, t.dir);
                lemma_cleared(mid, t.dir, digest);
                assert forall|p: Seq<char>| p != t.dir implies #[trigger] summary_of(stored_all(s, ws), p) == summary_of(
                    s,
                    p,
                ) by {
                    lemma_put(s, x, p);
                    assert(summary_of(stored(mid, clear), p) == summary_of(mid, p));
                }
            } else {
                assert(ws =~= none.push(clear));
                lemma_stored_push(s, none, clear);
                lemma_cleared(s, t.dir, digest);
            }
        },
        None => {
            let w1 = WriteView::SeedPlaceholder(t.dir, level_of(t));
            assert(ws =~= none.push(w1).push(clear));
            lemma_stored_push(s, none, w1);
            lemma_stored_push(s, none.push(w1), clear);
            let x = SummaryView { path: t.dir, text: Seq::empty(), source_digest: Seq::empty(), stale: true };
            let mid = put(s, x);
            lemma_put(s, x, t.dir);
            lemma_cleared(mid, t.dir, digest);
            assert forall|p: Seq<char>| p != t.dir implies #[trigger] summary_of(stored_all(s, ws), p) == summary_of(
                s,
                p,
            ) by {
                lemma_put(s, x, p);
                assert(summary_of(stored(mid, clear), p) == summary_of(mid, p));
            }
        },
    }
}

proof fn lemma_answered(project: Seq<char>, t: TaskView, s: Seq<SummaryView>, digest: Seq<char>, reply: Seq<char>)
    requires
        is_answer(reply),
    ensures
        is_current(stored_all(s, answer_writes(project, t, digest, reply)), t.dir),
        forall|p: Seq<char>|
            p != t.dir ==> #[trigger] summary_of(stored_all(s, answer_writes(project, t, digest, reply)), p)
                == summary_of(s, p),
{
    let ws = answer_writes(project, t, digest, reply);
    let none: Seq<WriteView> = Seq::empty();
    let w1 = ws[0];
    let w2 = ws[1];
    let w3 = ws[2];
    assert(ws =~= none.push(w1).push(w2).push(w3));
    lemma_stored_push(s, none, w1);
    lemma_stored_push(s, none.push(w1), w2);
    lemma_stored_push(s, none.push(w1).push(w2), w3);
    let x = SummaryView { path: t.dir, text: crate::text::trim(reply), source_digest: digest, stale: false };
    assert(stored_all(s, ws) == put(s, x));
    lemma_put(s, x, t.dir);
    assert forall|p: Seq<char>| p != t.dir implies #[trigger] summary_of(put(s, x), p) == summary_of(s, p) by {
        lemma_put(s, x, p);
    }
}

/// One turn of the module pass: with every child done and a usable reply, the
/// module's summary stands, and no other is touched.
proof fn lemma_turn(
    project: Seq<char>,
    tasks: Seq<TaskView>,
    n: int,
    s: Seq<SummaryView>,
    files: Seq<RowView>,
    overdue: spec_fn(Seq<char>) -> bool,
    replies: spec_fn(Seq<char>) -> Seq<char>,
)
    requires
        0 < n <= tasks.len(),
        all_fresh(
            tasks[n - 1].children,
            after_modules(project, tasks, n - 1, s, files, overdue, replies),
            files,
        ),
        forall|prompt: Seq<char>| is_answer(#[trigger] replies(prompt)),
    ensures
        is_current(after_modules(project, tasks, n, s, files, overdue, replies), tasks[n - 1].dir),
        forall|p: Seq<char>|
            p != tasks[n - 1].dir ==> #[trigger] summary_of(
                after_modules(project, tasks, n, s, files, overdue, replies),
                p,
            ) == summary_of(after_modules(project, tasks, n - 1, s, files, overdue, replies), p),
{
    let sofar = after_modules(project, tasks, n - 1, s, files, overdue, replies);
    let t = tasks[n - 1];
    let existing = summary_of(sofar, t.dir);
    let cs = crate::code_index::modules::gathered(t.children, sofar);
    let digest = crate::code_index::summary::digest_of(cs);
    let none: Seq<WriteView> = Seq::empty();
    let step = step_of(project, t, existing, sofar, files, overdue(t.dir));
    if existing is Some && !(existing->0).stale {
        assert(step == StepView::Settled(none));
    } else if cs.len() == 0 {
        lemma_emptied(project, t, sofar, digest);
    } else if existing is Some && (existing->0).source_digest == digest && (existing->0).text.len() > 0 {
        let clear = WriteView::ClearStale(t.dir, digest);
        assert(seq![clear] =~= none.push(clear));
        lemma_stored_push(sofar, none, clear);
        lemma_cleared(sofar, t.dir, digest);
    } else {
        let prompt = crate::code_index::summary::module_prompt(project, t.dir, t.is_repo, cs);
        assert(step == StepView::Ask(prompt, digest));
        lemma_answered(project, t, sofar, digest, replies(prompt));
    }
}

/// Whether a text is a directory's path.
spec fn is_dir_path(p: Seq<char>) -> bool {
    p.len() > 0 && p.last() == '/'
}

proof fn lemma_parts_are_dirs(rows: Seq<RowView>)
    ensures
        forall|d: Seq<char>| #[trigger]
            listed(crate::code_index::modules::depth1_parts(rows), d) ==> is_dir_path(d),
        forall|d: Seq<char>| #[trigger]
            listed(crate::code_index::modules::depth2_parts(rows), d) ==> is_dir_path(d),
    decreases rows.len(),
{
    reveal_strlit("/");
    if rows.len() > 0 {
        let r = rows.drop_last();
        lemma_parts_are_dirs(r);
        let d1 = crate::code_index::modules::depth1_parts(rows);
        let d2 = crate::code_index::modules::depth2_parts(rows);
        let e1 = crate::code_index::modules::depth1_parts(r);
        let e2 = crate::code_index::modules::depth2_parts(r);
        let c = split(rows.last().path, '/');
        assert forall|d: Seq<char>| #[trigger] listed(d1, d) implies is_dir_path(d) by {
            let i = choose|i: int| 0 <= i < d1.len() && #[trigger] d1[i] == d;
            if i < e1.len() {
                assert(e1[i] == d);
                assert(listed(e1, d));
            } else {
                assert(d == c[0] + "/"@);
            }
        }
        assert forall|d: Seq<char>| #[trigger] listed(d2, d) implies is_dir_path(d) by {
            let i = choose|i: int| 0 <= i < d2.len() && #[trigger] d2[i] == d;
            if i < e2.len() {
                assert(e2[i] == d);
                assert(listed(e2, d));
            } else {
                assert(d == c[0] + "/"@ + c[1] + "/"@);
            }
        }
    }
}

proof fn lemma_depth2_tasks(rows: Seq<RowView>, dirs: Seq<Seq<char>>)
    ensures
        depth2_tasks(rows, dirs, None).len() == dirs.len(),
        forall|i: int|
            0 <= i < dirs.len() ==> #[trigger] depth2_tasks(rows, dirs, None)[i] == (TaskView {
                dir: dirs[i],
                is_repo: false,
                children: files_at(rows, dirs[i], 2),
            }),
    decreases dirs.len(),
{
    if dirs.len() > 0 {
        let d = dirs.drop_last();
        lemma_depth2_tasks(rows, d);
        let all = depth2_tasks(rows, dirs, None);
        let sub = depth2_tasks(rows, d, None);
        assert forall|i: int| 0 <= i < dirs.len() implies #[trigger] all[i] == (TaskView {
            dir: dirs[i],
            is_repo: false,
            children: files_at(rows, dirs[i], 2),
        }) by {
            if i < d.len() {
                assert(all[i] == sub[i]);
                assert(d[i] == dirs[i]);
            }
        }
    }
}

proof fn lemma_depth1_tasks(rows: Seq<RowView>, dirs: Seq<Seq<char>>)
    ensures
        depth1_tasks(rows, dirs, None).len() == dirs.len(),
        forall|i: int|
            0 <= i < dirs.len() ==> #[trigger] depth1_tasks(rows, dirs, None)[i] == (TaskView {
                dir: dirs[i],
                is_repo: false,
                children: depth1_children(rows, dirs[i]),
            }),
    decreases dirs.len(),
{
    if dirs.len() > 0 {
        let d = dirs.drop_last();
        lemma_depth1_tasks(rows, d);
        let all = depth1_tasks(rows, dirs, None);
        let sub = depth1_tasks(rows, d, None);
        assert forall|i: int| 0 <= i < dirs.len() implies #[trigger] all[i] == (TaskView {
            dir: dirs[i],
            is_repo: false,
            children: depth1_children(rows, dirs[i]),
        }) by {
            if i < d.len() {
                assert(all[i] == sub[i]);
                assert(d[i] == dirs[i]);
            }
        }
    }
}

/// Whether a child is a file that some row is of.
spec fn is_file_child(rows: Seq<RowView>, c: (Seq<char>, bool)) -> bool {
    c.1 && exists|k: int| 0 <= k < rows.len() && (#[trigger] rows[k]).path == c.0
}

proof fn lemma_files_at(rows: Seq<RowView>, dir: Seq<char>, depth: int)
    ensures
        forall|i: int| 0 <= i < files_at(rows, dir, depth).len() ==> is_file_child(rows, #[trigger] files_at(rows, dir, depth)[i]),
    decreases rows.len(),
{
    if rows.len() > 0 {
        let d = rows.drop_last();
        lemma_files_at(d, dir, depth);
        let all = files_at(rows, dir, depth);
        let sub = files_at(d, dir, depth);
        assert forall|i: int| 0 <= i < all.len() implies is_file_child(rows, #[trigger] all[i]) by {
            if i < sub.len() {
                assert(all[i] == sub[i]);
                assert(is_file_child(d, sub[i]));
                let k = choose|k: int| 0 <= k < d.len() && (#[trigger] d[k]).path == sub[i].0;
                assert(rows[k].path == all[i].0);
            } else {
                assert(rows[rows.len() - 1].path == all[i].0);
            }
        }
    }
}

proof fn lemma_modules_in(dirs: Seq<Seq<char>>, d1: Seq<char>)
    ensures
        forall|i: int|
            0 <= i < modules_in(dirs, d1).len() ==> !(#[trigger] modules_in(dirs, d1)[i]).1 && listed(
                dirs,
                modules_in(dirs, d1)[i].0,
            ),
    decreases dirs.len(),
{
    if dirs.len() > 0 {
        let d = dirs.drop_last();
        lemma_modules_in(d, d1);
        let all = modules_in(dirs, d1);
        let sub = modules_in(d, d1);
        assert forall|i: int| 0 <= i < all.len() implies !(#[trigger] all[i]).1 && listed(dirs, all[i].0) by {
            if i < sub.len() {
                assert(all[i] == sub[i]);
                let k = choose|k: int| 0 <= k < d.len() && #[trigger] d[k] == sub[i].0;
                assert(dirs[k] == all[i].0);
            } else {
                assert(dirs[dirs.len() - 1] == all[i].0);
            }
        }
    }
}

proof fn lemma_row_found(rows: Seq<RowView>, p: Seq<char>)
    requires
        exists|k: int| 0 <= k < rows.len() && (#[trigger] rows[k]).path == p,
    ensures
        row_of(rows, p) is Some,
        exists|k: int| 0 <= k < rows.len() && #[trigger] rows[k] == row_of(rows, p)->0,
        (row_of(rows, p)->0).path == p,
    decreases rows.len(),
{
    let d = rows.drop_last();
    if rows.last().path == p {
        assert(rows[rows.len() - 1] == row_of(rows, p)->0);
    } else {
        let k = choose|k: int| 0 <= k < rows.len() && (#[trigger] rows[k]).path == p;
        assert(d[k].path == p);
        lemma_row_found(d, p);
        let j = choose|j: int| 0 <= j < d.len() && #[trigger] d[j] == row_of(d, p)->0;
        assert(rows[j] == row_of(rows, p)->0);
    }
}

/// The tasks of a full run are those of the modules, depth two first, and of
/// the repository; their directories are no file's path.
proof fn lemma_tasks(files: Seq<RowView>)
    ensures
        all_tasks(files, None).len() == depth2(files).len() + depth1(files).len() + repo_tasks(files, None).len(),
        forall|i: int|
            0 <= i < depth2(files).len() ==> #[trigger] all_tasks(files, None)[i] == (TaskView {
                dir: depth2(files)[i],
                is_repo: false,
                children: files_at(files, depth2(files)[i], 2),
            }),
        forall|i: int|
            0 <= i < depth1(files).len() ==> #[trigger] all_tasks(files, None)[depth2(files).len() + i] == (TaskView {
                dir: depth1(files)[i],
                is_repo: false,
                children: depth1_children(files, depth1(files)[i]),
            }),
        files.len() > 0 ==> all_tasks(files, None).last() == (TaskView {
            dir: "/"@,
            is_repo: true,
            children: repo_children(files),
        }),
        forall|i: int| 0 <= i < all_tasks(files, None).len() ==> is_dir_path((#[trigger] all_tasks(files, None)[i]).dir),
{
    let d2 = depth2(files);
    let d1 = depth1(files);
    let t2 = depth2_tasks(files, d2, None);
    let t1 = depth1_tasks(files, d1, None);
    let tr = repo_tasks(files, None);
    let all = all_tasks(files, None);
    lemma_depth2_tasks(files, d2);
    lemma_depth1_tasks(files, d1);
    lemma_parts_are_dirs(files);
    crate::order::lemma_sorted_set(crate::code_index::modules::depth1_parts(files));
    crate::order::lemma_sorted_set(crate::code_index::modules::depth2_parts(files));
    reveal_strlit("/");
    assert forall|i: int| 0 <= i < d2.len() implies #[trigger] all[i] == (TaskView {
        dir: d2[i],
        is_repo: false,
        children: files_at(files, d2[i], 2),
    }) by {
        assert(all[i] == t2[i]);
    }
    assert forall|i: int| 0 <= i < d1.len() implies #[trigger] all[d2.len() + i] == (TaskView {
        dir: d1[i],
        is_repo: false,
        children: depth1_children(files, d1[i]),
    }) by {
        assert(all[d2.len() + i] == t1[i]);
    }
    assert forall|i: int| 0 <= i < all.len() implies is_dir_path((#[trigger] all[i]).dir) by {
        if i < d2.len() {
            assert(all[i] == t2[i]);
            assert(listed(d2, d2[i]));
        } else if i < d2.len() + d1.len() {
            assert(all[i] == t1[i - d2.len()]);
            assert(listed(d1, d1[i - d2.len()]));
        } else {
            assert(all[i] == tr[i - d2.len() - d1.len()]);
        }
    }
}

/// Whether the first `n` tasks' summaries stand, and every file's summary is
/// what it was.
spec fn passed(tasks: Seq<TaskView>, n: int, before: Seq<SummaryView>, after: Seq<SummaryView>) -> bool {
    &&& forall|j: int| 0 <= j < n ==> is_current(after, (#[trigger] tasks[j]).dir)
    &&& forall|p: Seq<char>| is_file_path(p) ==> #[trigger] summary_of(after, p) == summary_of(before, p)
}

proof fn lemma_children_are_done(files: Seq<RowView>, n: int, before: Seq<SummaryView>, after: Seq<SummaryView>)
    requires
        0 < n <= all_tasks(files, None).len(),
        passed(all_tasks(files, None), n - 1, before, after),
        forall|i: int| 0 <= i < files.len() ==> is_file_path((#[trigger] files[i]).path),
        forall|i: int| 0 <= i < files.len() ==> is_done(before, #[trigger] files[i]),
    ensures
        all_fresh(all_tasks(files, None)[n - 1].children, after, files),
{
    let tasks = all_tasks(files, None);
    let d2 = depth2(files);
    let d1 = depth1(files);
    let t = tasks[n - 1];
    lemma_tasks(files);
    assert forall|c: (Seq<char>, bool)| #[trigger] is_file_child(files, c) implies is_fresh(c, after, files) by {
        lemma_row_found(files, c.0);
        let k = choose|k: int| 0 <= k < files.len() && #[trigger] files[k] == row_of(files, c.0)->0;
        assert(is_file_path(files[k].path));
        assert(is_done(before, files[k]));
        assert(summary_of(after, c.0) == summary_of(before, c.0));
    }
    assert forall|i: int| 0 <= i < t.children.len() implies is_fresh(#[trigger] t.children[i], after, files) by {
        let c = t.children[i];
        if n - 1 < d2.len() {
            lemma_files_at(files, d2[n - 1], 2);
            assert(is_file_child(files, c));
        } else if n - 1 < d2.len() + d1.len() {
            let k = n - 1 - d2.len();
            assert(tasks[d2.len() + k] == t);
            let own = files_at(files, d1[k], 1);
            let below = modules_in(d2, d1[k]);
            assert(t.children == own + below);
            lemma_files_at(files, d1[k], 1);
            lemma_modules_in(d2, d1[k]);
            if i < own.len() {
                assert(c == own[i]);
                assert(is_file_child(files, c));
            } else {
                assert(c == below[i - own.len()]);
                let j = choose|j: int| 0 <= j < d2.len() && #[trigger] d2[j] == c.0;
                assert(tasks[j].dir == c.0);
            }
        } else {
            assert(files.len() > 0);
            assert(tasks.last() == t);
            let own = files_at(files, "/"@, 0);
            let below = as_modules(d1);
            assert(t.children == own + below);
            lemma_files_at(files, "/"@, 0);
            if i < own.len() {
                assert(c == own[i]);
                assert(is_file_child(files, c));
            } else {
                let j = i - own.len();
                assert(c == below[j]);
                assert(tasks[d2.len() + j].dir == c.0);
            }
        }
    }
}

proof fn lemma_after_modules(
    project: Seq<char>,
    n: int,
    s: Seq<SummaryView>,
    files: Seq<RowView>,
    overdue: spec_fn(Seq<char>) -> bool,
    replies: spec_fn(Seq<char>) -> Seq<char>,
)
    requires
        0 <= n <= all_tasks(files, None).len(),
        forall|i: int| 0 <= i < files.len() ==> is_file_path((#[trigger] files[i]).path),
        forall|i: int| 0 <= i < files.len() ==> is_done(s, #[trigger] files[i]),
        forall|prompt: Seq<char>| is_answer(#[trigger] replies(prompt)),
    ensures
        passed(
            all_tasks(files, None),
            n,
            s,
            after_modules(project, all_tasks(files, None), n, s, files, overdue, replies),
        ),
    decreases n,
{
    let tasks = all_tasks(files, None);
    if n > 0 {
        lemma_after_modules(project, n - 1, s, files, overdue, replies);
        let sofar = after_modules(project, tasks, n - 1, s, files, overdue, replies);
        let now = after_modules(project, tasks, n, s, files, overdue, replies);
        lemma_children_are_done(files, n, s, sofar);
        lemma_turn(project, tasks, n, s, files, overdue, replies);
        lemma_tasks(files);
        assert forall|j: int| 0 <= j < n implies is_current(now, (#[trigger] tasks[j]).dir) by {
            if tasks[j].dir != tasks[n - 1].dir {
                assert(is_current(sofar, tasks[j].dir));
                assert(summary_of(now, tasks[j].dir) == summary_of(sofar, tasks[j].dir));
            }
        }
        assert forall|p: Seq<char>| is_file_path(p) implies #[trigger] summary_of(now, p) == summary_of(s, p) by {
            assert(is_dir_path(tasks[n - 1].dir));
            assert(summary_of(now, p) == summary_of(sofar, p));
        }
    }
}

// --- scope ---

/// The scope rows once the decisions of a scope pass are stored, in order: a
/// user's own decision stands.
pub open spec fn scoped(rows: Seq<ScopeView>, decisions: Seq<(Seq<char>, Category)>) -> Seq<ScopeView>
    decreases decisions.len(),
{
    if decisions.len() == 0 {
        rows
    } else {
        let sofar = scoped(rows, decisions.drop_last());
        let (dir, category) = decisions.last();
        match row_for(sofar, dir) {
            Some(row) if row.source == "user"@ => sofar,
            _ => sofar.push(ScopeView { dir, category: category.token(), source: "llm"@ }),
        }
    }
}

proof fn lemma_row_for(rows: Seq<ScopeView>, dir: Seq<char>)
    ensures
        row_for(rows, dir) is Some ==> exists|j: int| 0 <= j < rows.len() && (#[trigger] rows[j]).dir == dir,
    decreases rows.len(),
{
    if rows.len() > 0 {
        if rows.last().dir == dir {
            assert(rows[rows.len() - 1].dir == dir);
        } else {
            lemma_row_for(rows.drop_last(), dir);
            if row_for(rows, dir) is Some {
                let d = rows.drop_last();
                let j = choose|j: int| 0 <= j < d.len() && (#[trigger] d[j]).dir == dir;
                assert(rows[j].dir == dir);
            }
        }
    }
}

proof fn lemma_scoped(rows: Seq<ScopeView>, decisions: Seq<(Seq<char>, Category)>, files: Seq<FileView>)
    requires
        forall|i: int| 0 <= i < rows.len() ==> !is_stale_scope(#[trigger] rows[i], files),
        forall|i: int| 0 <= i < decisions.len() ==> has_files_under(files, (#[trigger] decisions[i]).0),
    ensures
        forall|i: int| 0 <= i < scoped(rows, decisions).len() ==> !is_stale_scope(#[trigger] scoped(rows, decisions)[i], files),
        forall|i: int|
            0 <= i < decisions.len() ==> exists|j: int|
                0 <= j < scoped(rows, decisions).len() && (#[trigger] scoped(rows, decisions)[j]).dir == (
                #[trigger] decisions[i]).0,
    decreases decisions.len(),
{
    if decisions.len() > 0 {
        let d = decisions.drop_last();
        assert forall|i: int| 0 <= i < d.len() implies has_files_under(files, (#[trigger] d[i]).0) by {
            assert(d[i] == decisions[i]);
        }
        lemma_scoped(rows, d, files);
        let sofar = scoped(rows, d);
        let all = scoped(rows, decisions);
        let dir = decisions.last().0;
        assert(decisions[decisions.len() - 1].0 == dir);
        lemma_row_for(sofar, dir);
        assert forall|i: int| 0 <= i < all.len() implies !is_stale_scope(#[trigger] all[i], files) by {
            if i < sofar.len() {
                assert(all[i] == sofar[i]);
            }
        }
        assert forall|i: int| 0 <= i < decisions.len() implies exists|j: int|
            0 <= j < all.len() && (#[trigger] all[j]).dir == (#[trigger] decisions[i]).0 by {
            if i < d.len() {
                assert(d[i] == decisions[i]);
                let j = choose|j: int| 0 <= j < sofar.len() && (#[trigger] sofar[j]).dir == d[i].0;
                assert(all[j].dir == decisions[i].0);
            } else if all.len() > sofar.len() {
                assert(all[sofar.len() as int].dir == dir);
            } else {
                let j = choose|j: int| 0 <= j < sofar.len() && (#[trigger] sofar[j]).dir == dir;
                assert(all[j].dir == dir);
            }
        }
    }
}

proof fn lemma_no_stale_scopes(rows: Seq<ScopeView>, files: Seq<FileView>)
    requires
        forall|i: int| 0 <= i < rows.len() ==> !is_stale_scope(#[trigger] rows[i], files),
    ensures
        stale_scopes(rows, files).len() == 0,
    decreases rows.len(),
{
    if rows.len() > 0 {
        let d = rows.drop_last();
        assert forall|i: int| 0 <= i < d.len() implies !is_stale_scope(#[trigger] d[i], files) by {
            assert(d[i] == rows[i]);
        }
        lemma_no_stale_scopes(d, files);
        assert(rows[rows.len() - 1] == rows.last());
    }
}

/// Once a scope pass has decided on every top-level directory, and on none that
/// the tree does not have, no further pass is due and nothing of it is dropped.
pub proof fn law_scope_pass_is_not_due_again(
    rows: Seq<ScopeView>,
    decisions: Seq<(Seq<char>, Category)>,
    tree: Seq<FileView>,
)
    requires
        stale_scopes(rows, tree).len() == 0,
        decisions.len() > 0,
        forall|i: int| 0 <= i < decisions.len() ==> has_files_under(tree, (#[trigger] decisions[i]).0),
        forall|i: int|
            0 <= i < top_dirs(tree).len() ==> exists|j: int|
                0 <= j < decisions.len() && (#[trigger] decisions[j]).0 == #[trigger] top_dirs(tree)[i],
    ensures
        stale_scopes(scoped(rows, decisions), tree).len() == 0,
        !scope_due(scoped(rows, decisions), top_dirs(tree)),
{
    let all = scoped(rows, decisions);
    let tops = top_dirs(tree);
    lemma_each_stale(rows, tree);
    lemma_scoped(rows, decisions, tree);
    lemma_no_stale_scopes(all, tree);
    assert(exists|j: int| 0 <= j < all.len() && (#[trigger] all[j]).dir == decisions[0].0);
    assert forall|i: int| 0 <= i < tops.len() implies covered(all, #[trigger] tops[i]) by {
        let k = choose|k: int| 0 <= k < decisions.len() && (#[trigger] decisions[k]).0 == tops[i];
        let j = choose|j: int| 0 <= j < all.len() && (#[trigger] all[j]).dir == decisions[k].0;
        lemma_top_is_one_component(tree, i);
        assert(crate::code_index::scope::first_component(all[j].dir) == tops[i]);
    }
}

proof fn lemma_each_stale(rows: Seq<ScopeView>, files: Seq<FileView>)
    requires
        stale_scopes(rows, files).len() == 0,
    ensures
        forall|i: int| 0 <= i < rows.len() ==> !is_stale_scope(#[trigger] rows[i], files),
    decreases rows.len(),
{
    if rows.len() > 0 {
        let d = rows.drop_last();
        lemma_each_stale(d, files);
        assert forall|i: int| 0 <= i < rows.len() implies !is_stale_scope(#[trigger] rows[i], files) by {
            if i < d.len() {
                assert(d[i] == rows[i]);
            }
        }
    }
}

/// The top-level directories of a tree, in order.
pub open spec fn top_dirs(tree: Seq<FileView>) -> Seq<Seq<char>> {
    sorted_set(top_parts(tree))
}

proof fn lemma_top_parts(tree: Seq<FileView>)
    ensures
        forall|i: int| 0 <= i < top_parts(tree).len() ==> !(#[trigger] top_parts(tree)[i]).contains('/'),
    decreases tree.len(),
{
    if tree.len() > 0 {
        let d = tree.drop_last();
        lemma_top_parts(d);
        let p = tree.last().path;
        crate::text::lemma_find_char(p, '/');
        let k = crate::text::find_char(p, '/');
        let all = top_parts(tree);
        let sub = top_parts(d);
        assert forall|i: int| 0 <= i < all.len() implies !(#[trigger] all[i]).contains('/') by {
            if i < sub.len() {
                assert(all[i] == sub[i]);
            } else {
                assert(all[i] == p.take(k));
                if all[i].contains('/') {
                    let j = choose|j: int| 0 <= j < all[i].len() && all[i][j] == '/';
                    assert(p[j] == '/');
                }
            }
        }
    }
}

proof fn lemma_top_is_one_component(tree: Seq<FileView>, i: int)
    requires
        0 <= i < top_dirs(tree).len(),
    ensures
        crate::code_index::scope::first_component(top_dirs(tree)[i]) == top_dirs(tree)[i],
{
    let t = top_dirs(tree)[i];
    crate::order::lemma_sorted_set(top_parts(tree));
    lemma_top_parts(tree);
    assert(listed(top_dirs(tree), t));
    let k = choose|k: int| 0 <= k < top_parts(tree).len() && #[trigger] top_parts(tree)[k] == t;
    assert(!t.contains('/'));
    crate::text::lemma_find_char(t, '/');
    assert(split(t, '/') == seq![t]);
}

// --- the second run ---

/// The rows of a status, in order.
pub open spec fn with_status(rows: Seq<RowView>, status: Seq<char>) -> Seq<RowView>
    decreases rows.len(),
{
    if rows.len() == 0 {
        Seq::empty()
    } else if rows.last().status == status {
        with_status(rows.drop_last(), status).push(rows.last())
    } else {
        with_status(rows.drop_last(), status)
    }
}

/// The rows of the files that are done with: indexed, or fallen back to windows.
pub open spec fn finished(rows: Seq<RowView>) -> Seq<RowView> {
    with_status(rows, "indexed"@) + with_status(rows, "fallback"@)
}

/// What the store holds of a project: its file rows, the path and text of its
/// chunks, its scope rows, its summaries, the list of those that are of a module
/// or of the repository, and how many months of its history have no summary of
/// their commits.
pub ghost struct Stored {
    pub rows: Seq<RowView>,
    pub chunks: Seq<(Seq<char>, Seq<char>)>,
    pub scopes: Seq<ScopeView>,
    pub summaries: Seq<SummaryView>,
    pub modules: Seq<ModuleSummary>,
    pub months: int,
}

/// The committed tree, with the paths that git ignores and the blobs that are
/// binary.
pub ghost struct Tree {
    pub files: Seq<FileView>,
    pub ignored: Seq<Seq<char>>,
    pub binary: Seq<Seq<char>>,
}

/// What a first run found and was answered.
pub ghost struct FirstRun {
    /// The rows that it started from, and the renames since they were indexed.
    pub rows: Seq<RowView>,
    pub renames: Seq<(Seq<char>, Seq<char>)>,
    /// The scope rows that its pruning left, and what its scope pass decided:
    /// nothing where none was due.
    pub scopes: Seq<ScopeView>,
    pub decisions: Seq<(Seq<char>, Category)>,
    /// The summaries when its summary pass began, and the reply to the call for
    /// each file.
    pub summaries: Seq<SummaryView>,
    pub file_replies: spec_fn(Seq<char>) -> Seq<char>,
    /// The module summaries that it listed, which of them were overdue, and the
    /// reply to each module prompt.
    pub modules: Seq<ModuleSummary>,
    pub overdue: spec_fn(Seq<char>) -> bool,
    pub module_replies: spec_fn(Seq<char>) -> Seq<char>,
}

/// What a run finds to do, stage by stage, where no stage writes anything.
pub ghost struct Findings {
    pub dropped_scopes: int,
    pub needs_scope: bool,
    pub deleted: int,
    pub moved: int,
    pub cleaned_up: int,
    pub swept: int,
    pub chunked: int,
    pub headers: int,
    pub summaries: int,
    pub modules: int,
    pub module_writes: int,
    pub pruned: int,
    pub months: int,
    pub dirty: int,
}

/// How many of the candidates the summary pass asks about.
pub open spec fn asked_files(cs: Seq<RowView>, s: Seq<SummaryView>, budget: BudgetView) -> int
    decreases cs.len(),
{
    if cs.len() == 0 {
        0
    } else {
        asked_files(cs.drop_last(), s, budget) + (if summary_step_of(budget, cs.last(), digest_at(s, cs.last().path))
            == SummaryStep::Ask {
            1int
        } else {
            0
        })
    }
}

/// What the turn of a task comes to.
pub open spec fn turn_of(
    project: Seq<char>,
    t: TaskView,
    s: Seq<SummaryView>,
    files: Seq<RowView>,
    overdue: spec_fn(Seq<char>) -> bool,
) -> StepView {
    step_of(project, t, summary_of(s, t.dir), s, files, overdue(t.dir))
}

/// How many of the tasks the module pass asks about.
pub open spec fn asked_modules(
    project: Seq<char>,
    tasks: Seq<TaskView>,
    s: Seq<SummaryView>,
    files: Seq<RowView>,
    overdue: spec_fn(Seq<char>) -> bool,
) -> int
    decreases tasks.len(),
{
    if tasks.len() == 0 {
        0
    } else {
        asked_modules(project, tasks.drop_last(), s, files, overdue) + (if turn_of(
            project,
            tasks.last(),
            s,
            files,
            overdue,
        ) is Ask {
            1int
        } else {
            0
        })
    }
}

/// How many writes the module pass makes without asking.
pub open spec fn settling_writes(
    project: Seq<char>,
    tasks: Seq<TaskView>,
    s: Seq<SummaryView>,
    files: Seq<RowView>,
    overdue: spec_fn(Seq<char>) -> bool,
) -> int
    decreases tasks.len(),
{
    if tasks.len() == 0 {
        0
    } else {
        settling_writes(project, tasks.drop_last(), s, files, overdue) + (match turn_of(
            project,
            tasks.last(),
            s,
            files,
            overdue,
        ) {
            StepView::Settled(ws) => ws.len() as int,
            StepView::Ask(_, _) => 0,
        })
    }
}

/// What a run over what is stored finds to do, at the commit that was indexed
/// last, so without renames. Every dirty file counts as a header call.
pub open spec fn findings(
    project: Seq<char>,
    st: Stored,
    tree: Tree,
    budget: BudgetView,
    overdue: spec_fn(Seq<char>) -> bool,
) -> Findings {
    let c = changes_of(st.rows, tree.files, Seq::empty(), None);
    let files = finished(st.rows);
    let tasks = all_tasks(files, None);
    let dirty = with_status(st.rows, "dirty"@);
    Findings {
        dropped_scopes: stale_scopes(st.scopes, tree.files).len() as int,
        needs_scope: scope_due(st.scopes, top_dirs(tree.files)),
        deleted: c.delete.len() as int,
        moved: c.moved.len() as int,
        cleaned_up: out_of_scope(st.scopes, None, paths_of(st.rows)).len() as int,
        swept: with_chunk_hits(path_hits(st.rows, None), st.rows, st.chunks, None).len() as int,
        chunked: belonging(st.scopes, tree.ignored, tree.binary, c.add_or_modify).len() as int,
        headers: rows_in_prefix(dirty, None).len() as int,
        summaries: asked_files(candidates(files, None), st.summaries, budget),
        modules: asked_modules(project, tasks, st.summaries, files, overdue),
        module_writes: cleanup_writes(project, st.modules, files).len() as int + settling_writes(
            project,
            tasks,
            st.summaries,
            files,
            overdue,
        ),
        pruned: orphans(st.modules, files),
        months: st.months,
        dirty: dirty.len() as int,
    }
}

/// Nothing to do at any stage.
pub open spec fn nothing() -> Findings {
    Findings {
        dropped_scopes: 0,
        needs_scope: false,
        deleted: 0,
        moved: 0,
        cleaned_up: 0,
        swept: 0,
        chunked: 0,
        headers: 0,
        summaries: 0,
        modules: 0,
        module_writes: 0,
        pruned: 0,
        months: 0,
        dirty: 0,
    }
}

/// Whether a module summary is listed after a run: it was listed before and its
/// module has a file, or it is that of one of the run's tasks.
pub open spec fn is_listed_after(m: ModuleSummary, before: Seq<ModuleSummary>, files: Seq<RowView>) -> bool {
    ||| is_live_module(m.path@, m.level@, files) && exists|i: int|
        0 <= i < before.len() && (#[trigger] before[i]).path@ == m.path@ && before[i].level@ == m.level@
    ||| exists|i: int|
        0 <= i < all_tasks(files, None).len() && (#[trigger] all_tasks(files, None)[i]).dir == m.path@ && level_of(
            all_tasks(files, None)[i],
        ) == m.level@
}

/// Whether a first run without a prefix that advanced the head, with every call
/// made and every reply usable, left what is stored.
pub open spec fn is_left_by(st: Stored, run: FirstRun, project: Seq<char>, tree: Tree) -> bool {
    let files = finished(st.rows);
    let tasks = all_tasks(files, None);
    let cs = candidates(files, None);
    // The tree has one file per path, and the renames are those of one diff.
    &&& one_file_per_path(tree.files)
    &&& forall|i: int| 0 <= i < tree.files.len() ==> is_file_path((#[trigger] tree.files[i]).path)
    &&& distinct_renames(run.renames)
    // The scope pass was not due, or decided on every top-level directory.
    &&& st.scopes == scoped(run.scopes, run.decisions)
    &&& stale_scopes(run.scopes, tree.files).len() == 0
    &&& run.decisions.len() == 0 ==> !scope_due(run.scopes, top_dirs(tree.files))
    &&& forall|i: int| 0 <= i < run.decisions.len() ==> has_files_under(tree.files, (#[trigger] run.decisions[i]).0)
    &&& run.decisions.len() > 0 ==> forall|i: int|
        0 <= i < top_dirs(tree.files).len() ==> exists|j: int|
            0 <= j < run.decisions.len() && (#[trigger] run.decisions[j]).0 == #[trigger] top_dirs(tree.files)[i]
    // The changes were made, and no file was left dirty.
    &&& one_row_per_path(st.rows)
    &&& blobs_of_rows(st.rows) == after_run(
        run.rows,
        tree.files,
        run.renames,
        st.scopes,
        tree.ignored,
        tree.binary,
    )
    &&& forall|i: int| 0 <= i < st.rows.len() ==> (#[trigger] st.rows[i]).status != "dirty"@
    // Whatever is flagged was skipped.
    &&& forall|i: int|
        0 <= i < st.rows.len() && (#[trigger] st.rows[i]).status != "skipped"@ ==> path_label(st.rows[i].path) is None
    &&& forall|i: int|
        0 <= i < st.chunks.len() && row_of(st.rows, (#[trigger] st.chunks[i]).0) is Some && (row_of(
            st.rows,
            st.chunks[i].0,
        )->0).status != "skipped"@ ==> content_label(st.chunks[i].1) is None
    // The summary pass and the module pass went over everything.
    &&& forall|p: Seq<char>| reply_summary(#[trigger] (run.file_replies)(p)) is Some
    &&& forall|p: Seq<char>| is_answer(#[trigger] (run.module_replies)(p))
    &&& st.summaries == after_modules(
        project,
        tasks,
        tasks.len() as int,
        after_files(run.summaries, cs, cs.len() as int, run.file_replies),
        files,
        run.overdue,
        run.module_replies,
    )
    &&& forall|i: int| 0 <= i < st.modules.len() ==> is_listed_after(#[trigger] st.modules[i], run.modules, files)
    // The history pass left no month without a summary.
    &&& st.months == 0
}

proof fn lemma_with_status(rows: Seq<RowView>, status: Seq<char>)
    ensures
        forall|r: RowView| #[trigger] with_status(rows, status).contains(r) <==> rows.contains(r) && r.status == status,
    decreases rows.len(),
{
    let all = with_status(rows, status);
    if rows.len() > 0 {
        let d = rows.drop_last();
        let x = rows.last();
        lemma_with_status(d, status);
        assert(d.push(x) =~= rows);
        assert forall|r: RowView| #[trigger] all.contains(r) <==> rows.contains(r) && r.status == status by {
            lemma_push_has(d, x, r);
            lemma_push_has(with_status(d, status), x, r);
        }
    } else {
        assert forall|r: RowView| !(#[trigger] all.contains(r)) by {
            assert(all.len() == 0);
        }
    }
}

proof fn lemma_push_has(s: Seq<RowView>, x: RowView, r: RowView)
    ensures
        s.push(x).contains(r) <==> s.contains(r) || r == x,
{
    let t = s.push(x);
    assert(t[s.len() as int] == x);
    if s.contains(r) {
        let i = choose|i: int| 0 <= i < s.len() && s[i] == r;
        assert(t[i] == r);
    }
    if t.contains(r) {
        let i = choose|i: int| 0 <= i < t.len() && t[i] == r;
        assert(i < s.len() ==> s[i] == r);
    }
}

proof fn lemma_no_prefix(rows: Seq<RowView>)
    ensures
        rows_in_prefix(rows, None) == rows,
    decreases rows.len(),
{
    if rows.len() > 0 {
        lemma_no_prefix(rows.drop_last());
        assert(rows.drop_last().push(rows.last()) =~= rows);
    } else {
        assert(rows_in_prefix(rows, None) =~= rows);
    }
}

/// The finished files are rows, and the summary pass takes just them.
proof fn lemma_finished(rows: Seq<RowView>)
    ensures
        forall|r: RowView| #[trigger] finished(rows).contains(r) ==> rows.contains(r),
        forall|r: RowView| #[trigger] candidates(finished(rows), None).contains(r) <==> finished(rows).contains(r),
{
    broadcast use vstd::seq_lib::group_to_multiset_ensures;

    let a = with_status(rows, "indexed"@);
    let b = with_status(rows, "fallback"@);
    let files = finished(rows);
    lemma_with_status(rows, "indexed"@);
    lemma_with_status(rows, "fallback"@);
    assert forall|r: RowView| #[trigger] files.contains(r) implies rows.contains(r) by {
        let i = choose|i: int| 0 <= i < files.len() && files[i] == r;
        if i < a.len() {
            assert(a[i] == r);
            assert(a.contains(r));
        } else {
            assert(b[i - a.len()] == r);
            assert(b.contains(r));
        }
    }
    let cs = candidates(files, None);
    law_candidates_come_by_path(files, None);
    lemma_no_prefix(files);
    assert forall|r: RowView| #[trigger] cs.contains(r) <==> files.contains(r) by {
        assert(cs.to_multiset().count(r) == files.to_multiset().count(r));
    }
}

proof fn lemma_no_hits(rows: Seq<RowView>, chunks: Seq<(Seq<char>, Seq<char>)>, all: Seq<RowView>)
    requires
        forall|i: int|
            0 <= i < rows.len() && (#[trigger] rows[i]).status != "skipped"@ ==> path_label(rows[i].path) is None,
        forall|i: int|
            0 <= i < chunks.len() && row_of(all, (#[trigger] chunks[i]).0) is Some && (row_of(all, chunks[i].0)->0).status
                != "skipped"@ ==> content_label(chunks[i].1) is None,
    ensures
        path_hits(rows, None).len() == 0,
        with_chunk_hits(path_hits(rows, None), all, chunks, None).len() == 0,
    decreases rows.len() + chunks.len(),
{
    if rows.len() > 0 {
        let d = rows.drop_last();
        assert forall|i: int| 0 <= i < d.len() && (#[trigger] d[i]).status != "skipped"@ implies path_label(
            d[i].path,
        ) is None by {
            assert(d[i] == rows[i]);
        }
        let none: Seq<(Seq<char>, Seq<char>)> = Seq::empty();
        lemma_no_hits(d, none, all);
        assert(rows[rows.len() - 1] == rows.last());
    }
    if chunks.len() > 0 {
        let d = chunks.drop_last();
        assert forall|i: int|
            0 <= i < d.len() && row_of(all, (#[trigger] d[i]).0) is Some && (row_of(all, d[i].0)->0).status
                != "skipped"@ implies content_label(d[i].1) is None by {
            assert(d[i] == chunks[i]);
        }
        lemma_no_hits(rows, d, all);
        assert(chunks[chunks.len() - 1] == chunks.last());
    }
}

proof fn lemma_no_files_asked(cs: Seq<RowView>, s: Seq<SummaryView>, budget: BudgetView)
    requires
        forall|i: int| 0 <= i < cs.len() ==> is_done(s, #[trigger] cs[i]),
    ensures
        asked_files(cs, s, budget) == 0,
    decreases cs.len(),
{
    if cs.len() > 0 {
        let d = cs.drop_last();
        assert forall|i: int| 0 <= i < d.len() implies is_done(s, #[trigger] d[i]) by {
            assert(d[i] == cs[i]);
        }
        lemma_no_files_asked(d, s, budget);
        assert(is_done(s, cs[cs.len() - 1]));
    }
}

proof fn lemma_no_modules_asked(
    project: Seq<char>,
    tasks: Seq<TaskView>,
    s: Seq<SummaryView>,
    files: Seq<RowView>,
    overdue: spec_fn(Seq<char>) -> bool,
)
    requires
        forall|i: int| 0 <= i < tasks.len() ==> is_current(s, (#[trigger] tasks[i]).dir),
    ensures
        asked_modules(project, tasks, s, files, overdue) == 0,
        settling_writes(project, tasks, s, files, overdue) == 0,
    decreases tasks.len(),
{
    if tasks.len() > 0 {
        let d = tasks.drop_last();
        assert forall|i: int| 0 <= i < d.len() implies is_current(s, (#[trigger] d[i]).dir) by {
            assert(d[i] == tasks[i]);
        }
        lemma_no_modules_asked(project, d, s, files, overdue);
        assert(is_current(s, tasks[tasks.len() - 1].dir));
    }
}

proof fn lemma_no_orphans(project: Seq<char>, modules: Seq<ModuleSummary>, files: Seq<RowView>)
    requires
        forall|i: int|
            0 <= i < modules.len() ==> is_live_module((#[trigger] modules[i]).path@, modules[i].level@, files),
    ensures
        orphans(modules, files) == 0,
        cleanup_writes(project, modules, files).len() == 0,
    decreases modules.len(),
{
    if modules.len() > 0 {
        let d = modules.drop_last();
        assert forall|i: int| 0 <= i < d.len() implies is_live_module((#[trigger] d[i]).path@, d[i].level@, files) by {
            assert(d[i] == modules[i]);
        }
        lemma_no_orphans(project, d, files);
        assert(modules[modules.len() - 1] == modules.last());
    }
}

/// Whatever task a run has, its module has a file.
proof fn lemma_tasks_are_live(files: Seq<RowView>, i: int)
    requires
        0 <= i < all_tasks(files, None).len(),
    ensures
        is_live_module(all_tasks(files, None)[i].dir, level_of(all_tasks(files, None)[i]), files),
{
    let tasks = all_tasks(files, None);
    let d2 = depth2(files);
    let d1 = depth1(files);
    lemma_tasks(files);
    reveal_strlit("repo");
    reveal_strlit("module");
    assert("repo"@.len() != "module"@.len());
    if i < d2.len() {
        assert(tasks[i].dir == d2[i]);
        assert(listed(d2, d2[i]));
    } else if i < d2.len() + d1.len() {
        let k = i - d2.len();
        assert(tasks[d2.len() + k].dir == d1[k]);
        assert(listed(d1, d1[k]));
    } else {
        assert(tasks.last() == tasks[i]);
    }
}

/// A run over what a complete run left finds nothing to do at any stage: the
/// tree is the same, so there is nothing to decide, to delete, to move, to clean
/// up, to sweep or to chunk, no file and no module to ask about, and nothing to
/// write. Neither the budget nor the time that has passed matters.
pub proof fn law_complete_run_leaves_nothing_to_do(
    st: Stored,
    run: FirstRun,
    project: Seq<char>,
    tree: Tree,
    budget: BudgetView,
    overdue: spec_fn(Seq<char>) -> bool,
)
    requires
        is_left_by(st, run, project, tree),
    ensures
        findings(project, st, tree, budget, overdue) == nothing(),
{
    let files = finished(st.rows);
    let tasks = all_tasks(files, None);
    let cs = candidates(files, None);
    let s1 = after_files(run.summaries, cs, cs.len() as int, run.file_replies);
    // Scope.
    if run.decisions.len() > 0 {
        law_scope_pass_is_not_due_again(run.scopes, run.decisions, tree.files);
    }
    // Changes.
    law_run_mirrors_what_belongs(run.rows, tree.files, run.renames, st.scopes, tree.ignored, tree.binary);
    law_nothing_to_do_once_mirrored(st.rows, tree.files, st.scopes, tree.ignored, tree.binary);
    lemma_no_hits(st.rows, st.chunks, st.rows);
    // Dirty files.
    let dirty = with_status(st.rows, "dirty"@);
    lemma_with_status(st.rows, "dirty"@);
    if dirty.len() > 0 {
        assert(dirty.contains(dirty[0]));
        assert(st.rows.contains(dirty[0]));
    }
    lemma_no_prefix(dirty);
    // File summaries.
    lemma_finished(st.rows);
    assert forall|i: int| 0 <= i < st.rows.len() implies is_file_path((#[trigger] st.rows[i]).path) by {
        let p = st.rows[i].path;
        crate::code_index::changes::lemma_row_blob(st.rows, p);
        assert(blobs_of_rows(st.rows).contains_key(p));
        crate::code_index::changes::lemma_tree_blob(tree.files, p);
        let k = choose|k: int| 0 <= k < tree.files.len() && (#[trigger] tree.files[k]).path == p;
        assert(is_file_path(tree.files[k].path));
    }
    assert forall|i: int| 0 <= i < cs.len() implies is_file_path((#[trigger] cs[i]).path) && st.rows.contains(cs[i]) by {
        assert(cs.contains(cs[i]));
        assert(files.contains(cs[i]));
    }
    assert forall|i: int, j: int|
        0 <= i < cs.len() && 0 <= j < cs.len() && (#[trigger] cs[i]).path == (#[trigger] cs[j]).path implies cs[i]
        == cs[j] by {
        let a = choose|a: int| 0 <= a < st.rows.len() && st.rows[a] == cs[i];
        let b = choose|b: int| 0 <= b < st.rows.len() && st.rows[b] == cs[j];
        assert(st.rows[a].path == st.rows[b].path);
    }
    lemma_after_files(run.summaries, cs, cs.len() as int, run.file_replies);
    assert forall|i: int| 0 <= i < files.len() implies is_file_path((#[trigger] files[i]).path) && is_done(s1, files[i]) by {
        assert(files.contains(files[i]));
        assert(cs.contains(files[i]));
        let k = choose|k: int| 0 <= k < cs.len() && cs[k] == files[i];
        assert(is_done(s1, cs[k]));
    }
    // Module summaries.
    lemma_after_modules(project, tasks.len() as int, s1, files, run.overdue, run.module_replies);
    assert(passed(tasks, tasks.len() as int, s1, st.summaries));
    assert forall|i: int| 0 <= i < cs.len() implies is_done(st.summaries, #[trigger] cs[i]) by {
        assert(is_done(s1, cs[i]));
        assert(summary_of(st.summaries, cs[i].path) == summary_of(s1, cs[i].path));
    }
    lemma_no_files_asked(cs, st.summaries, budget);
    lemma_no_modules_asked(project, tasks, st.summaries, files, overdue);
    assert forall|i: int| 0 <= i < st.modules.len() implies is_live_module(
        (#[trigger] st.modules[i]).path@,
        st.modules[i].level@,
        files,
    ) by {
        let m = st.modules[i];
        assert(is_listed_after(m, run.modules, files));
        if !is_live_module(m.path@, m.level@, files) {
            let k = choose|k: int|
                0 <= k < tasks.len() && (#[trigger] tasks[k]).dir == m.path@ && level_of(tasks[k]) == m.level@;
            lemma_tasks_are_live(files, k);
        }
    }
    lemma_no_orphans(project, st.modules, files);
}

/// What a run reports of its stages when it finds so much to do, where the
/// summary calls stand for what each stage attempts.
pub open spec fn reports(
    f: Findings,
    backfilled: usize,
    examined: usize,
    symbols: usize,
    edges: usize,
) -> Seq<Event> {
    seq![
        Event::ScopeChecked { needed: f.needs_scope },
        Event::ChangesApplied { deleted: f.deleted as usize, moved: f.moved as usize, swept: f.swept as usize },
        Event::FilesChunked { chunked: f.chunked as usize, secret: 0 },
        Event::SymbolsBackfilled { files: backfilled },
        Event::EdgesResolved { examined },
        Event::FilesFinalized { attempted: f.headers as usize },
        Event::FilesSummarized { attempted: f.summaries as usize },
        Event::ModulesSummarized { attempted: f.modules as usize, pruned: f.pruned as usize },
        Event::MonthsSummarized { attempted: f.months as usize },
        Event::DirtyCounted { files: f.dirty as usize },
        Event::HeadAdvanced,
        Event::TotalsCounted { symbols, edges },
    ]
}

/// A run and its budget after the first `n` reports.
pub open spec fn after_reports(run: ProjectRun, budget: BudgetView, es: Seq<Event>, n: int) -> (ProjectRun, BudgetView)
    decreases n,
{
    if n <= 0 {
        (run, budget)
    } else {
        let (r, b) = after_reports(run, budget, es, n - 1);
        (next_run(r, es[n - 1], b), budget_after(b, es[n - 1]))
    }
}

/// A full run of one project that is not its first, before its first stage.
pub open spec fn full_run(budget: BudgetView) -> ProjectRun {
    ProjectRun {
        embedder_up: true,
        history_only: false,
        has_prefix: false,
        first_run: false,
        stage: first_stage(true, false),
        failed_before: budget.failed as usize,
        counts: no_counts(),
    }
}

/// A second run makes no call. Over what a complete run left it goes through its
/// stages to the end without spending anything: no scope pass, no file chunked,
/// deleted or moved, no call for a file, a module or a month; and it advances the
/// head again.
pub proof fn law_second_run_makes_no_call(
    st: Stored,
    run: FirstRun,
    project: Seq<char>,
    tree: Tree,
    limit: int,
    overdue: spec_fn(Seq<char>) -> bool,
    backfilled: usize,
    examined: usize,
    symbols: usize,
    edges: usize,
)
    requires
        is_left_by(st, run, project, tree),
    ensures
        ({
            let budget = BudgetView::fresh(limit);
            let es = reports(findings(project, st, tree, budget, overdue), backfilled, examined, symbols, edges);
            let (end, spent) = after_reports(full_run(budget), budget, es, es.len() as int);
            &&& spent == budget
            &&& spent.used == 0
            &&& end.stage == Stage::Finish(Ending::Done)
            &&& !end.counts.scope_ran
            &&& end.counts.head_advanced
            &&& end.counts.files_chunked == 0 && end.counts.files_deleted == 0 && end.counts.files_moved == 0
            &&& end.counts.files_skipped_secret == 0
            &&& end.counts.headers_attempted == 0 && end.counts.summaries_attempted == 0
            &&& end.counts.modules_attempted == 0 && end.counts.modules_pruned == 0
            &&& end.counts.months_summarized == 0
        }),
{
    let b = BudgetView::fresh(limit);
    law_complete_run_leaves_nothing_to_do(st, run, project, tree, b, overdue);
    let es = reports(nothing(), backfilled, examined, symbols, edges);
    let r0 = full_run(b);
    let r1 = next_run(r0, es[0], b);
    let r2 = next_run(r1, es[1], b);
    let r3 = next_run(r2, es[2], b);
    let r4 = next_run(r3, es[3], b);
    let r5 = next_run(r4, es[4], b);
    let r6 = next_run(r5, es[5], b);
    let r7 = next_run(r6, es[6], b);
    let r8 = next_run(r7, es[7], b);
    let r9 = next_run(r8, es[8], b);
    let r10 = next_run(r9, es[9], b);
    let r11 = next_run(r10, es[10], b);
    let r12 = next_run(r11, es[11], b);
    assert(after_reports(r0, b, es, 0) == (r0, b));
    assert(after_reports(r0, b, es, 1) == (r1, b));
    assert(after_reports(r0, b, es, 2) == (r2, b));
    assert(after_reports(r0, b, es, 3) == (r3, b));
    assert(after_reports(r0, b, es, 4) == (r4, b));
    assert(after_reports(r0, b, es, 5) == (r5, b));
    assert(after_reports(r0, b, es, 6) == (r6, b));
    assert(after_reports(r0, b, es, 7) == (r7, b));
    assert(after_reports(r0, b, es, 8) == (r8, b));
    assert(after_reports(r0, b, es, 9) == (r9, b));
    assert(after_reports(r0, b, es, 10) == (r10, b));
    assert(after_reports(r0, b, es, 11) == (r11, b));
    assert(after_reports(r0, b, es, 12) == (r12, b));
    assert(r4.stage == Stage::ResolveAllEdges || r4.stage == Stage::ResolveNewEdges);
    assert(r9.stage == Stage::CountDirty);
    assert(r12.stage == Stage::Finish(Ending::Done));
}

/// One project of a second run: what is stored of it, the complete run that left
/// it, its tree, and what the stages that never call report.
pub ghost struct Revisit {
    pub name: Seq<char>,
    pub st: Stored,
    pub run: FirstRun,
    pub tree: Tree,
    pub overdue: spec_fn(Seq<char>) -> bool,
    pub backfilled: usize,
    pub examined: usize,
    pub symbols: usize,
    pub edges: usize,
}

/// Whether a complete run left what is stored of the project.
#[verifier::opaque]
pub open spec fn was_complete(v: Revisit) -> bool {
    is_left_by(v.st, v.run, v.name, v.tree)
}

/// A project's second run and what it leaves of the budget.
#[verifier::opaque]
pub open spec fn revisited(v: Revisit, budget: BudgetView) -> (ProjectRun, BudgetView) {
    let f = findings(v.name, v.st, v.tree, budget, v.overdue);
    let es = reports(f, v.backfilled, v.examined, v.symbols, v.edges);
    after_reports(full_run(budget), budget, es, es.len() as int)
}

/// A run that has ended with nothing chunked, nothing deleted and no scope pass,
/// and that advanced the head.
pub open spec fn is_quiet(run: ProjectRun) -> bool {
    &&& run.stage == Stage::Finish(Ending::Done)
    &&& run.counts.files_chunked == 0 && run.counts.files_deleted == 0 && !run.counts.scope_ran
    &&& run.counts.head_advanced
}

/// The budget once the first `n` projects have been run, one after the other.
pub open spec fn after_projects(vs: Seq<Revisit>, n: int, budget: BudgetView) -> BudgetView
    decreases n,
{
    if n <= 0 {
        budget
    } else {
        revisited(vs[n - 1], after_projects(vs, n - 1, budget)).1
    }
}

proof fn lemma_revisited(v: Revisit, limit: int)
    requires
        was_complete(v),
    ensures
        revisited(v, BudgetView::fresh(limit)).1 == BudgetView::fresh(limit),
        is_quiet(revisited(v, BudgetView::fresh(limit)).0),
{
    reveal(was_complete);
    reveal(revisited);
    law_second_run_makes_no_call(
        v.st,
        v.run,
        v.name,
        v.tree,
        limit,
        v.overdue,
        v.backfilled,
        v.examined,
        v.symbols,
        v.edges,
    );
}

/// A second run over every project makes no call: where a complete run left each
/// of them, the budget that they share stays as it was, and each project's run
/// ends with nothing chunked, nothing deleted and no scope pass.
pub proof fn law_second_index_makes_no_call(vs: Seq<Revisit>, n: int, limit: int)
    requires
        0 <= n <= vs.len(),
        forall|i: int| 0 <= i < vs.len() ==> was_complete(#[trigger] vs[i]),
    ensures
        after_projects(vs, n, BudgetView::fresh(limit)) == BudgetView::fresh(limit),
        after_projects(vs, n, BudgetView::fresh(limit)).used == 0,
        forall|i: int|
            0 <= i < n ==> is_quiet(revisited(#[trigger] vs[i], after_projects(vs, i, BudgetView::fresh(limit))).0),
    decreases n,
{
    if n > 0 {
        law_second_index_makes_no_call(vs, n - 1, limit);
        lemma_revisited(vs[n - 1], limit);
    }
}

// --- a budget that does not suffice ---

/// The rows, with what `f` makes of those at a path.
pub open spec fn at_path(rows: Seq<RowView>, p: Seq<char>, f: spec_fn(RowView) -> RowView) -> Seq<RowView> {
    Seq::new(
        rows.len(),
        |i: int|
            if rows[i].path == p {
                f(rows[i])
            } else {
                rows[i]
            },
    )
}

/// What a write of the header stage does to the file rows.
pub open spec fn row_stored(rows: Seq<RowView>, w: WriteView) -> Seq<RowView> {
    match w {
        WriteView::SetStatus(p, status) => at_path(rows, p, |r: RowView| RowView { status, ..r }),
        WriteView::PutSkipped(p, blob, reason) => at_path(
            rows,
            p,
            |r: RowView| RowView { blob, status: "skipped"@, ..r },
        ),
        WriteView::CountAttempt(p) => at_path(
            rows,
            p,
            |r: RowView| RowView { summary_attempts: r.summary_attempts + 1, ..r },
        ),
        _ => rows,
    }
}

/// What the writes of the header stage do to the file rows.
pub open spec fn rows_stored(rows: Seq<RowView>, ws: Seq<WriteView>) -> Seq<RowView>
    decreases ws.len(),
{
    if ws.len() == 0 {
        rows
    } else {
        row_stored(rows_stored(rows, ws.drop_last()), ws.last())
    }
}

/// What the header stage of a run finds and is answered: each file's text, its
/// chunks and whether it has a summary, the reply to each prompt, and how many
/// characters of a chunk are embedded.
pub ghost struct HeaderRun {
    pub project: Seq<char>,
    pub text: spec_fn(Seq<char>) -> Seq<char>,
    pub chunks: spec_fn(Seq<char>) -> Seq<ChunkMeta>,
    pub had_summary: spec_fn(Seq<char>) -> bool,
    pub replies: spec_fn(Seq<char>) -> Seq<char>,
    pub cap: int,
}

/// How a dirty file's turn begins.
pub open spec fn turn_on(h: HeaderRun, f: RowView) -> HeaderView {
    header_step_of(h.project, f.path, f.blob, (h.text)(f.path), (h.chunks)(f.path), (h.had_summary)(f.path))
}

/// What a dirty file's turn writes: what settles it, or what the reply to its
/// header call comes to.
pub open spec fn turn_writes(h: HeaderRun, f: RowView) -> Seq<WriteView> {
    match turn_on(h, f) {
        HeaderView::Settled(ws) => ws,
        HeaderView::Ask(prompt) => finalize_writes(f.path, f.blob, (h.chunks)(f.path), (h.replies)(prompt), h.cap),
    }
}

/// Where the header stage stands after a number of turns: the rows, the budget,
/// and how many of the turns were taken.
pub ghost struct Progress {
    pub rows: Seq<RowView>,
    pub budget: BudgetView,
    pub taken: int,
}

/// The header stage after the first `n` turns of its queue. A turn is taken while
/// something remains of the budget; a call that it makes is answered.
pub open spec fn after_headers(h: HeaderRun, rows: Seq<RowView>, queue: Seq<RowView>, n: int, budget: BudgetView) -> Progress
    decreases n,
{
    if n <= 0 {
        Progress { rows, budget, taken: 0 }
    } else {
        let p = after_headers(h, rows, queue, n - 1, budget);
        let f = queue[n - 1];
        if !p.budget.has_remaining() {
            p
        } else {
            Progress {
                rows: rows_stored(p.rows, turn_writes(h, f)),
                budget: if turn_on(h, f) is Ask {
                    p.budget.after(None)
                } else {
                    p.budget
                },
                taken: p.taken + 1,
            }
        }
    }
}

/// The files that the header stage takes up, in order.
pub open spec fn header_queue(rows: Seq<RowView>) -> Seq<RowView> {
    rows_in_prefix(with_status(rows, "dirty"@), None)
}

/// Whether the rows are the same but for those at a path, whose blob stays, and
/// which do not become dirty.
spec fn touches_only(before: Seq<RowView>, after: Seq<RowView>, p: Seq<char>) -> bool {
    &&& after.len() == before.len()
    &&& forall|i: int|
        0 <= i < before.len() ==> {
            &&& (#[trigger] after[i]).path == before[i].path
            &&& after[i].blob == before[i].blob
            &&& before[i].path != p ==> after[i] == before[i]
            &&& before[i].status != "dirty"@ ==> after[i].status != "dirty"@
        }
}

/// Whether no row at a path is dirty.
spec fn is_clean_at(rows: Seq<RowView>, p: Seq<char>) -> bool {
    forall|i: int| 0 <= i < rows.len() && (#[trigger] rows[i]).path == p ==> rows[i].status != "dirty"@
}

/// Whether every row at a path has the blob.
spec fn has_blob_at(rows: Seq<RowView>, p: Seq<char>, blob: Seq<char>) -> bool {
    forall|i: int| 0 <= i < rows.len() && (#[trigger] rows[i]).path == p ==> rows[i].blob == blob
}

/// Whether a write leaves every row but those at a path alone, and those
/// neither dirty nor with another blob.
spec fn keeps_to(w: WriteView, p: Seq<char>, blob: Seq<char>) -> bool {
    match w {
        WriteView::SetStatus(q, status) => q == p && status != "dirty"@,
        WriteView::PutSkipped(q, b, reason) => q == p && b == blob,
        WriteView::CountAttempt(q) => q == p,
        _ => true,
    }
}

/// Whether a write takes a path off the dirty list.
spec fn settles(w: WriteView, p: Seq<char>) -> bool {
    match w {
        WriteView::SetStatus(q, status) => q == p && status != "dirty"@,
        WriteView::PutSkipped(q, b, reason) => q == p,
        _ => false,
    }
}

spec fn all_keep_to(ws: Seq<WriteView>, p: Seq<char>, blob: Seq<char>) -> bool {
    forall|i: int| 0 <= i < ws.len() ==> keeps_to(#[trigger] ws[i], p, blob)
}

proof fn lemma_statuses()
    ensures
        "skipped"@ != "dirty"@,
        "indexed"@ != "dirty"@,
        "fallback"@ != "dirty"@,
{
    reveal_strlit("dirty");
    reveal_strlit("skipped");
    reveal_strlit("indexed");
    reveal_strlit("fallback");
    assert("dirty"@.len() != "skipped"@.len());
    assert("dirty"@.len() != "indexed"@.len());
    assert("dirty"@.len() != "fallback"@.len());
}

proof fn lemma_rows_stored(rows: Seq<RowView>, ws: Seq<WriteView>, p: Seq<char>, blob: Seq<char>)
    requires
        all_keep_to(ws, p, blob),
        has_blob_at(rows, p, blob),
    ensures
        touches_only(rows, rows_stored(rows, ws), p),
        (exists|k: int| 0 <= k < ws.len() && settles(#[trigger] ws[k], p)) ==> is_clean_at(rows_stored(rows, ws), p),
    decreases ws.len(),
{
    lemma_statuses();
    if ws.len() > 0 {
        let d = ws.drop_last();
        let w = ws.last();
        assert(ws[ws.len() - 1] == w);
        assert forall|i: int| 0 <= i < d.len() implies keeps_to(#[trigger] d[i], p, blob) by {
            assert(d[i] == ws[i]);
        }
        lemma_rows_stored(rows, d, p, blob);
        let mid = rows_stored(rows, d);
        let end = row_stored(mid, w);
        assert forall|i: int| 0 <= i < rows.len() implies {
            &&& (#[trigger] end[i]).path == rows[i].path
            &&& end[i].blob == rows[i].blob
            &&& rows[i].path != p ==> end[i] == rows[i]
            &&& rows[i].status != "dirty"@ ==> end[i].status != "dirty"@
        } by {
            assert(mid[i].path == rows[i].path);
        }
        if exists|k: int| 0 <= k < ws.len() && settles(#[trigger] ws[k], p) {
            let k = choose|k: int| 0 <= k < ws.len() && settles(#[trigger] ws[k], p);
            if k < d.len() {
                assert(settles(d[k], p));
                assert(is_clean_at(mid, p));
            }
            assert forall|i: int| 0 <= i < end.len() && (#[trigger] end[i]).path == p implies end[i].status
                != "dirty"@ by {
                assert(mid[i].path == rows[i].path);
            }
        }
    }
}

proof fn lemma_keep_concat(a: Seq<WriteView>, b: Seq<WriteView>, p: Seq<char>, blob: Seq<char>)
    requires
        all_keep_to(a, p, blob),
        all_keep_to(b, p, blob),
    ensures
        all_keep_to(a + b, p, blob),
{
    assert forall|i: int| 0 <= i < (a + b).len() implies keeps_to(#[trigger] (a + b)[i], p, blob) by {
        if i < a.len() {
            assert((a + b)[i] == a[i]);
        } else {
            assert((a + b)[i] == b[i - a.len()]);
        }
    }
}

proof fn lemma_hush_keeps(project: Seq<char>, dirs: Seq<Seq<char>>, p: Seq<char>, blob: Seq<char>)
    ensures
        all_keep_to(hush_writes(project, dirs), p, blob),
    decreases dirs.len(),
{
    if dirs.len() > 0 {
        lemma_hush_keeps(project, dirs.drop_last(), p, blob);
        let pair = seq![
            WriteView::EmptySummary(dirs.last()),
            WriteView::InvalidateSource(crate::code_index::writes::mirror_source(project, dirs.last())),
        ];
        lemma_keep_concat(hush_writes(project, dirs.drop_last()), pair, p, blob);
    }
}

proof fn lemma_headers_keep(
    chunks: Seq<ChunkMeta>,
    headers: Map<usize, Seq<char>>,
    cap: int,
    p: Seq<char>,
    blob: Seq<char>,
)
    ensures
        all_keep_to(header_writes(chunks, headers), p, blob),
        all_keep_to(embed_writes(chunks, headers, cap), p, blob),
    decreases chunks.len(),
{
    if chunks.len() > 0 {
        let d = chunks.drop_last();
        lemma_headers_keep(d, headers, cap, p, blob);
        let hs = header_writes(chunks, headers);
        let es = embed_writes(chunks, headers, cap);
        assert forall|i: int| 0 <= i < hs.len() implies keeps_to(#[trigger] hs[i], p, blob) by {
            if i < header_writes(d, headers).len() {
                assert(hs[i] == header_writes(d, headers)[i]);
            }
        }
        assert forall|i: int| 0 <= i < es.len() implies keeps_to(#[trigger] es[i], p, blob) by {
            if i < embed_writes(d, headers, cap).len() {
                assert(es[i] == embed_writes(d, headers, cap)[i]);
            }
        }
    }
}

/// Whatever a dirty file's turn writes, it touches that file's row alone, and
/// takes it off the dirty list.
proof fn lemma_turn_settles(h: HeaderRun, f: RowView)
    ensures
        all_keep_to(turn_writes(h, f), f.path, f.blob),
        exists|k: int| 0 <= k < turn_writes(h, f).len() && settles(#[trigger] turn_writes(h, f)[k], f.path),
{
    lemma_statuses();
    let ws = turn_writes(h, f);
    let p = f.path;
    let chunks = (h.chunks)(p);
    if chunks.len() == 0 {
        assert(ws == unchunked_writes(p));
        assert(settles(ws[0], p));
    } else {
        match secret_label(p, (h.text)(p)) {
            Some(label) => {
                let first = seq![
                    WriteView::ClearChunks(p),
                    WriteView::DeleteSymbols(p),
                    WriteView::PutSkipped(p, f.blob, label),
                    WriteView::DeleteSummary(p),
                ];
                let middle = if (h.had_summary)(p) {
                    hush_writes(h.project, ancestors(p))
                } else {
                    Seq::empty()
                };
                let last = seq![WriteView::MarkStale(ancestors(p))];
                assert(ws == first + middle + last);
                lemma_hush_keeps(h.project, ancestors(p), p, f.blob);
                lemma_keep_concat(first, middle, p, f.blob);
                lemma_keep_concat(first + middle, last, p, f.blob);
                assert(ws[2] == first[2]);
                assert(settles(ws[2], p));
            },
            None => {
                let prompt = turn_on(h, f)->Ask_0;
                let reply = (h.replies)(prompt);
                let headers = reply_headers(reply);
                let a = header_writes(chunks, headers);
                let b = embed_writes(chunks, headers, h.cap);
                let c = summary_writes(p, f.blob, reply_summary(reply));
                lemma_headers_keep(chunks, headers, h.cap, p, f.blob);
                lemma_keep_concat(a, b, p, f.blob);
                lemma_keep_concat(a + b, c, p, f.blob);
                let last = seq![ws.last()];
                assert(ws =~= a + b + c + last);
                assert(keeps_to(last[0], p, f.blob));
                lemma_keep_concat(a + b + c, last, p, f.blob);
                assert(settles(ws[ws.len() - 1], p));
            },
        }
    }
}

proof fn lemma_no_row_no_status(before: Seq<RowView>, after: Seq<RowView>, p: Seq<char>)
    requires
        touches_only(before, after, p),
        forall|i: int| 0 <= i < before.len() ==> (#[trigger] before[i]).path != p,
    ensures
        after == before,
{
    assert(after =~= before) by {
        assert forall|i: int| 0 <= i < before.len() implies after[i] == before[i] by {
            assert(before[i].path != p);
            assert(after[i].path == before[i].path);
        }
    }
}

/// Once the first of the dirty files is settled, the others are left, in order.
proof fn lemma_first_settled(before: Seq<RowView>, after: Seq<RowView>, p: Seq<char>)
    requires
        one_row_per_path(before),
        touches_only(before, after, p),
        is_clean_at(after, p),
        with_status(before, "dirty"@).len() > 0,
        with_status(before, "dirty"@)[0].path == p,
    ensures
        with_status(after, "dirty"@) == with_status(before, "dirty"@).drop_first(),
    decreases before.len(),
{
    let st = "dirty"@;
    let n = before.len() - 1;
    let d = before.drop_last();
    let e = after.drop_last();
    let x = before.last();
    let q = with_status(d, st);
    assert(after[n].path == x.path);
    assert(after.last() == after[n]);
    assert(one_row_per_path(d)) by {
        assert forall|i: int, j: int|
            0 <= i < d.len() && 0 <= j < d.len() && (#[trigger] d[i]).path == (#[trigger] d[j]).path implies i == j by {
            assert(before[i].path == before[j].path);
        }
    }
    assert(touches_only(d, e, p)) by {
        assert forall|i: int| 0 <= i < d.len() implies {
            &&& (#[trigger] e[i]).path == d[i].path
            &&& e[i].blob == d[i].blob
            &&& d[i].path != p ==> e[i] == d[i]
            &&& d[i].status != st ==> e[i].status != st
        } by {
            assert(after[i].path == before[i].path);
            assert(e[i] == after[i]);
            assert(d[i] == before[i]);
        }
    }
    assert(is_clean_at(e, p)) by {
        assert forall|i: int| 0 <= i < e.len() && (#[trigger] e[i]).path == p implies e[i].status != st by {
            assert(e[i] == after[i]);
        }
    }
    if q.len() == 0 {
        // The last row is the only dirty one.
        assert(x.status == st && x.path == p);
        assert forall|i: int| 0 <= i < d.len() implies (#[trigger] d[i]).path != p by {
            if d[i].path == p {
                assert(before[i].path == before[n].path);
            }
        }
        lemma_no_row_no_status(d, e, p);
        assert(after.last().status != st);
        assert(with_status(after, st) =~= with_status(before, st).drop_first());
    } else {
        assert(with_status(before, st)[0] == q[0]);
        lemma_first_settled(d, e, p);
        lemma_with_status(d, st);
        assert(q.contains(q[0]));
        let k = choose|k: int| 0 <= k < d.len() && d[k] == q[0];
        assert(x.path != p) by {
            if x.path == p {
                assert(before[k].path == before[n].path);
            }
        }
        assert(after[n] == before[n]);
        if x.status == st {
            assert(q.push(x).drop_first() =~= q.drop_first().push(x));
        }
    }
}

/// Whether two lists of rows are of the same files: the same paths with the same
/// blobs.
pub open spec fn same_files(a: Seq<RowView>, b: Seq<RowView>) -> bool {
    a.len() == b.len() && forall|i: int| 0 <= i < a.len() ==> (#[trigger] a[i]).path == b[i].path && a[i].blob == b[i].blob
}

proof fn lemma_same_blobs(a: Seq<RowView>, b: Seq<RowView>)
    requires
        same_files(a, b),
    ensures
        blobs_of_rows(a) == blobs_of_rows(b),
{
    assert forall|p: Seq<char>| row_blob(a, p) == row_blob(b, p) by {
        lemma_same_blob_at(a, b, p);
    }
    assert(blobs_of_rows(a) =~= blobs_of_rows(b));
}

proof fn lemma_same_blob_at(a: Seq<RowView>, b: Seq<RowView>, p: Seq<char>)
    requires
        same_files(a, b),
    ensures
        row_blob(a, p) == row_blob(b, p),
    decreases a.len(),
{
    if a.len() > 0 {
        assert(a[a.len() - 1].path == b[a.len() - 1].path);
        assert(same_files(a.drop_last(), b.drop_last())) by {
            assert forall|i: int| 0 <= i < a.drop_last().len() implies (#[trigger] a.drop_last()[i]).path
                == b.drop_last()[i].path && a.drop_last()[i].blob == b.drop_last()[i].blob by {
                assert(a[i].path == b[i].path);
            }
        }
        lemma_same_blob_at(a.drop_last(), b.drop_last(), p);
    }
}

proof fn lemma_same_files_unique(a: Seq<RowView>, b: Seq<RowView>)
    requires
        same_files(a, b),
        one_row_per_path(a),
    ensures
        one_row_per_path(b),
{
    assert forall|i: int, j: int|
        0 <= i < b.len() && 0 <= j < b.len() && (#[trigger] b[i]).path == (#[trigger] b[j]).path implies i == j by {
        assert(a[i].path == b[i].path);
        assert(a[j].path == b[j].path);
    }
}

/// How many calls a budget still allows.
pub open spec fn calls_left(b: BudgetView) -> int {
    b.limit - b.used
}

proof fn lemma_after_headers(h: HeaderRun, rows: Seq<RowView>, n: int, budget: BudgetView)
    requires
        one_row_per_path(rows),
        0 <= n <= with_status(rows, "dirty"@).len(),
        !budget.is_tripped(),
    ensures
        ({
            let queue = with_status(rows, "dirty"@);
            let p = after_headers(h, rows, queue, n, budget);
            &&& same_files(rows, p.rows)
            &&& 0 <= p.taken <= n
            &&& with_status(p.rows, "dirty"@) == queue.skip(p.taken)
            &&& !p.budget.is_tripped()
            &&& p.budget.limit == budget.limit
            &&& budget.used <= p.budget.used <= budget.used + p.taken
            &&& p.taken < n ==> p.budget.used >= p.budget.limit
        }),
    decreases n,
{
    let queue = with_status(rows, "dirty"@);
    if n == 0 {
        assert(queue.skip(0) =~= queue);
    } else {
        lemma_after_headers(h, rows, n - 1, budget);
        let p = after_headers(h, rows, queue, n - 1, budget);
        let f = queue[n - 1];
        if p.budget.has_remaining() {
            assert(p.taken == n - 1);
            let left = with_status(p.rows, "dirty"@);
            assert(left.len() > 0);
            assert(left[0] == f);
            lemma_same_files_unique(rows, p.rows);
            lemma_with_status(p.rows, "dirty"@);
            assert(left.contains(left[0]));
            let k = choose|k: int| 0 <= k < p.rows.len() && p.rows[k] == f;
            assert(has_blob_at(p.rows, f.path, f.blob)) by {
                assert forall|i: int| 0 <= i < p.rows.len() && (#[trigger] p.rows[i]).path == f.path implies p.rows[i].blob
                    == f.blob by {
                    assert(p.rows[i].path == p.rows[k].path);
                }
            }
            lemma_turn_settles(h, f);
            let ws = turn_writes(h, f);
            lemma_rows_stored(p.rows, ws, f.path, f.blob);
            let end = rows_stored(p.rows, ws);
            lemma_first_settled(p.rows, end, f.path);
            assert(queue.skip(n - 1).drop_first() =~= queue.skip(n));
            assert(same_files(rows, end)) by {
                assert forall|i: int| 0 <= i < rows.len() implies (#[trigger] rows[i]).path == end[i].path && rows[i].blob
                    == end[i].blob by {
                    assert(end[i].path == p.rows[i].path);
                }
            }
        }
    }
}

/// The rows once the header stage of a run has gone through its queue.
pub open spec fn header_stage(h: HeaderRun, rows: Seq<RowView>, budget: BudgetView) -> Progress {
    after_headers(h, rows, header_queue(rows), header_queue(rows).len() as int, budget)
}

/// A run whose budget leaves so many calls to its header stage finishes at least
/// as many files of its queue, from the front, or all of them. The next run over
/// the same tree finds nothing to chunk, to delete or to move, and its queue is
/// what was left of this one: none of the finished files is in it.
pub proof fn law_budgeted_run_finishes_the_first_files(
    h: HeaderRun,
    rows: Seq<RowView>,
    tree: Tree,
    scopes: Seq<ScopeView>,
    budget: BudgetView,
)
    requires
        one_file_per_path(tree.files),
        one_row_per_path(rows),
        mirrors(blobs_of_rows(rows), tree.files, scopes, tree.ignored, tree.binary),
        !budget.is_tripped(),
    ensures
        ({
            let queue = header_queue(rows);
            let p = header_stage(h, rows, budget);
            let next = changes_of(p.rows, tree.files, Seq::empty(), None);
            &&& 0 <= p.taken <= queue.len()
            &&& p.taken >= queue.len() || p.taken >= calls_left(budget)
            &&& p.budget.used <= budget.used + p.taken
            &&& header_queue(p.rows) == queue.skip(p.taken)
            &&& forall|i: int, j: int|
                0 <= i < p.taken && 0 <= j < header_queue(p.rows).len() ==> (#[trigger] queue[i]).path != (
                #[trigger] header_queue(p.rows)[j]).path
            &&& one_row_per_path(p.rows)
            &&& mirrors(blobs_of_rows(p.rows), tree.files, scopes, tree.ignored, tree.binary)
            &&& belonging(scopes, tree.ignored, tree.binary, next.add_or_modify).len() == 0
            &&& next.delete.len() == 0 && next.moved.len() == 0
        }),
{
    let dirty = with_status(rows, "dirty"@);
    let queue = header_queue(rows);
    lemma_no_prefix(dirty);
    let p = header_stage(h, rows, budget);
    lemma_after_headers(h, rows, dirty.len() as int, budget);
    lemma_no_prefix(with_status(p.rows, "dirty"@));
    lemma_same_files_unique(rows, p.rows);
    lemma_same_blobs(rows, p.rows);
    law_nothing_to_do_once_mirrored(p.rows, tree.files, scopes, tree.ignored, tree.binary);
    let left = header_queue(p.rows);
    lemma_queue_paths(rows);
    assert forall|i: int, j: int| 0 <= i < p.taken && 0 <= j < left.len() implies (#[trigger] queue[i]).path != (
    #[trigger] left[j]).path by {
        assert(left[j] == queue[p.taken + j]);
    }
}

proof fn lemma_queue_paths(rows: Seq<RowView>)
    requires
        one_row_per_path(rows),
    ensures
        one_row_per_path(with_status(rows, "dirty"@)),
    decreases rows.len(),
{
    if rows.len() > 0 {
        let d = rows.drop_last();
        let n = rows.len() - 1;
        assert(one_row_per_path(d)) by {
            assert forall|i: int, j: int|
                0 <= i < d.len() && 0 <= j < d.len() && (#[trigger] d[i]).path == (#[trigger] d[j]).path implies i == j by {
                assert(rows[i].path == rows[j].path);
            }
        }
        lemma_queue_paths(d);
        lemma_with_status(d, "dirty"@);
        let q = with_status(d, "dirty"@);
        let all = with_status(rows, "dirty"@);
        assert forall|i: int| 0 <= i < q.len() implies (#[trigger] q[i]).path != rows.last().path by {
            assert(q.contains(q[i]));
            let k = choose|k: int| 0 <= k < d.len() && d[k] == q[i];
            if q[i].path == rows.last().path {
                assert(rows[k].path == rows[n].path);
            }
        }
        assert forall|i: int, j: int|
            0 <= i < all.len() && 0 <= j < all.len() && (#[trigger] all[i]).path == (#[trigger] all[j]).path implies i
            == j by {
            if i < q.len() {
                assert(all[i] == q[i]);
            }
            if j < q.len() {
                assert(all[j] == q[j]);
            }
        }
    }
}

/// The rows after so many runs over the same tree, each with the same budget for
/// its header stage.
pub open spec fn after_runs(h: HeaderRun, rows: Seq<RowView>, runs: nat, budget: BudgetView) -> Seq<RowView>
    decreases runs,
{
    if runs == 0 {
        rows
    } else {
        header_stage(h, after_runs(h, rows, (runs - 1) as nat, budget), budget).rows
    }
}

/// Runs with a limited budget converge: after so many of them, as many files are
/// finished from the front of the first queue as the budgets allow together, and
/// the queue is what is left of it. So each file is taken up in one run only, and
/// once the budgets suffice no file is dirty.
pub proof fn law_budgeted_runs_converge(
    h: HeaderRun,
    rows: Seq<RowView>,
    tree: Tree,
    scopes: Seq<ScopeView>,
    runs: nat,
    budget: BudgetView,
)
    requires
        one_file_per_path(tree.files),
        one_row_per_path(rows),
        mirrors(blobs_of_rows(rows), tree.files, scopes, tree.ignored, tree.binary),
        !budget.is_tripped(),
        calls_left(budget) >= 0,
    ensures
        ({
            let after = after_runs(h, rows, runs, budget);
            &&& one_row_per_path(after)
            &&& mirrors(blobs_of_rows(after), tree.files, scopes, tree.ignored, tree.binary)
            &&& exists|done: int|
                {
                    &&& 0 <= done <= header_queue(rows).len()
                    &&& done >= header_queue(rows).len() || done >= runs * calls_left(budget)
                    &&& header_queue(after) == #[trigger] header_queue(rows).skip(done)
                }
            &&& runs * calls_left(budget) >= header_queue(rows).len() ==> with_status(after, "dirty"@).len() == 0
        }),
    decreases runs,
{
    let queue = header_queue(rows);
    let b = calls_left(budget);
    let after = after_runs(h, rows, runs, budget);
    if runs == 0 {
        assert(queue.skip(0) =~= queue);
        assert(runs * b == 0) by (nonlinear_arith)
            requires
                runs == 0,
        ;
    } else {
        let m = (runs - 1) as nat;
        law_budgeted_runs_converge(h, rows, tree, scopes, m, budget);
        let mid = after_runs(h, rows, m, budget);
        let done = choose|done: int|
            {
                &&& 0 <= done <= queue.len()
                &&& done >= queue.len() || done >= m * b
                &&& header_queue(mid) == #[trigger] queue.skip(done)
            };
        law_budgeted_run_finishes_the_first_files(h, mid, tree, scopes, budget);
        let p = header_stage(h, mid, budget);
        assert(header_queue(after) =~= queue.skip(done + p.taken));
        assert(runs * b == m * b + b) by (nonlinear_arith)
            requires
                runs == m + 1,
        ;
        assert(done + p.taken >= queue.len() || done + p.taken >= runs * b);
    }
    lemma_no_prefix(with_status(after, "dirty"@));
}

} // verus!
