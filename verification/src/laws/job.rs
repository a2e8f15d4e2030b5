//! Laws of the index run: which projects, files and chunks it takes up.

use vstd::prelude::*;

use crate::code_index::changes::in_prefix;
use crate::code_index::job::{
    calls_for, candidates, clean_paths, embed_queue, header_step_of, is_module_due, is_wanted, law_budget_counts,
    law_candidates_come_by_path, modules_due, option_refusal, picked, rows_in_prefix, summary_step_of, total,
    BudgetView, IndexOptions, ProjectView, SummaryStep, Unembedded,
};
use crate::code_index::reply::{embedding_text, header_prompt, ChunkMeta};
use crate::code_index::rows::{opt_view, FileView, RowView};
use crate::code_index::secrets::{path_label, secret_label};
use crate::code_index::writes::WriteView;
use crate::order::{ascending, lemma_sorted_set, sorted_set};
use crate::text::{ends_with, listed, starts_with};

verus! {

// --- the budget ---

/// A run has calls left until it made as many as its limit, or its last five
/// calls all failed.
pub proof fn law_calls_are_left(limit: int, errors: Seq<Option<Seq<char>>>)
    ensures
        BudgetView::fresh(limit).after_all(errors).has_remaining() <==> errors.len() < limit && !(errors.len() >= 5 && forall|
            i: int,
        |
            errors.len() - 5 <= i < errors.len() ==> (#[trigger] errors[i]) is Some),
        errors.len() > 0 && errors.last() is Some ==> BudgetView::fresh(limit).after_all(errors).last_error == errors.last(),
        errors.len() > 0 && errors.last() is None ==> BudgetView::fresh(limit).after_all(errors).last_error
            == BudgetView::fresh(limit).after_all(errors.drop_last()).last_error,
{
    law_budget_counts(limit, errors);
    crate::code_index::job::law_budget_trips_on_five_failures_in_a_row(limit, errors);
}

// --- projects ---

/// A run takes up every project, or every one that has the given name.
pub proof fn law_projects_picked_by_name(all: Seq<ProjectView>, name: Seq<char>)
    ensures
        picked(all, None) == all,
        picked(all, Some(name)) == all.filter(|p: ProjectView| p.name == name),
    decreases all.len(),
{
    reveal(Seq::filter);
    if all.len() > 0 {
        law_projects_picked_by_name(all.drop_last(), name);
    }
}

/// A prefix and a run over the history alone both need a project, and do not
/// go together; any other options are accepted.
pub proof fn law_options_that_do_not_go_together(opts: IndexOptions)
    ensures
        option_refusal(opts) is None <==> (opts.path_prefix is Some ==> opts.project is Some && !opts.history_only) && (
        opts.history_only ==> opts.project is Some),
{
}

// --- the plan ---

/// The files to index are all those whose path gives no secret away.
pub proof fn law_clean_files_are_planned(files: Seq<FileView>)
    ensures
        clean_paths(files) == files.filter(|f: FileView| path_label(f.path) is None),
    decreases files.len(),
{
    reveal(Seq::filter);
    if files.len() > 0 {
        law_clean_files_are_planned(files.drop_last());
    }
}

proof fn lemma_ascending_is_distinct(s: Seq<Seq<char>>)
    requires
        ascending(s),
    ensures
        s.no_duplicates(),
{
    assert forall|i: int, j: int| 0 <= i < s.len() && 0 <= j < s.len() && i != j implies s[i] != s[j] by {
        crate::order::lemma_before_irreflexive(s[i]);
        if i < j {
            assert(crate::order::before(s[i], s[j]));
        } else {
            assert(crate::order::before(s[j], s[i]));
        }
    }
}

/// A plan counts one call for each file that is dirty or to be indexed, once
/// where it is both, one for each stale module and each month, and one for the
/// scope pass where that is due.
pub proof fn law_plan_counts_each_file_once(
    needs_scope: bool,
    dirty: Seq<Seq<char>>,
    to_index: Seq<Seq<char>>,
    modules: int,
    months: int,
)
    ensures
        calls_for(needs_scope, dirty, to_index, modules, months) == (if needs_scope {
            1int
        } else {
            0
        }) + (dirty + to_index).to_set().len() + modules + months,
{
    let all = dirty + to_index;
    let s = sorted_set(all);
    lemma_sorted_set(all);
    lemma_ascending_is_distinct(s);
    s.unique_seq_to_set();
    assert(s.to_set() =~= all.to_set()) by {
        assert forall|t: Seq<char>| s.to_set().contains(t) == all.to_set().contains(t) by {
            assert(listed(s, t) <==> listed(all, t));
            if s.contains(t) {
                let i = choose|i: int| 0 <= i < s.len() && s[i] == t;
                assert(listed(s, t));
                let k = choose|k: int| 0 <= k < all.len() && #[trigger] all[k] == t;
                assert(all.contains(t));
            }
            if all.contains(t) {
                let i = choose|i: int| 0 <= i < all.len() && all[i] == t;
                assert(listed(all, t));
                let k = choose|k: int| 0 <= k < s.len() && #[trigger] s[k] == t;
                assert(s.contains(t));
            }
        }
    }
}

/// The stale modules that a plan counts are the directories among the stale
/// summaries: all of them without a prefix, else those that are the prefix or
/// lie in it.
pub proof fn law_stale_modules_are_counted(paths: Seq<Seq<char>>, prefix: Seq<char>)
    requires
        prefix.len() > 0 ==> prefix.last() != '/',
        forall|i: int| 0 <= i < paths.len() ==> ends_with(#[trigger] paths[i], "//"@) == false,
    ensures
        modules_due(paths, None) == paths.filter(|p: Seq<char>| p.len() > 0 && p.last() == '/').len(),
        modules_due(paths, Some(prefix)) == paths.filter(
            |p: Seq<char>| p != "/"@ && p.len() > 0 && p.last() == '/' && starts_with(p, prefix + "/"@),
        ).len(),
    decreases paths.len(),
{
    reveal(Seq::filter);
    let any = |p: Seq<char>| p.len() > 0 && p.last() == '/';
    let own = |p: Seq<char>| p != "/"@ && p.len() > 0 && p.last() == '/' && starts_with(p, prefix + "/"@);
    if paths.len() > 0 {
        let d = paths.drop_last();
        assert forall|i: int| 0 <= i < d.len() implies ends_with(#[trigger] d[i], "//"@) == false by {
            assert(d[i] == paths[i]);
        }
        law_stale_modules_are_counted(d, prefix);
        let p = paths[paths.len() - 1];
        reveal_strlit("/");
        reveal_strlit("//");
        assert(ends_with(p, "/"@) == (p.len() > 0 && p.last() == '/')) by {
            if p.len() > 0 {
                assert(p.skip(p.len() - 1) =~= seq![p.last()]);
                assert("/"@ =~= seq!['/']);
                if p.last() != '/' {
                    assert(p.skip(p.len() - 1)[0] == p.last());
                }
            }
        }
        assert(is_module_due(p, None) == any(p));
        if p.len() > 0 && p.last() == '/' && p != "/"@ {
            let q = p.drop_last();
            assert(p.len() >= 2) by {
                if p.len() == 1 {
                    assert(p =~= "/"@);
                }
            }
            assert(q.last() != '/') by {
                if q.last() == '/' {
                    assert(p.skip(p.len() - 2) =~= "//"@);
                    assert(ends_with(p, "//"@));
                }
            }
            assert(crate::text::trim_end_of(q, '/', '/') == q);
            assert(crate::text::trim_end_of(p, '/', '/') == q);
            assert(crate::text::trim_end_of(prefix, '/', '/') == prefix);
            if q == prefix {
                assert(p =~= prefix + "/"@);
                assert(p.take(p.len() as int) =~= p);
            }
        }
        assert(is_module_due(p, Some(prefix)) == own(p));
    }
}

// --- files ---

/// The dirty files are taken in their order, all that the prefix concerns.
pub proof fn law_dirty_files_in_the_prefix(rows: Seq<RowView>, prefix: Option<Seq<char>>)
    ensures
        rows_in_prefix(rows, prefix) == rows.filter(|r: RowView| in_prefix(prefix, r.path)),
        candidates(rows, prefix).to_multiset() == rows.filter(|r: RowView| in_prefix(prefix, r.path)).to_multiset(),
    decreases rows.len(),
{
    law_candidates_come_by_path(rows, prefix);
    lemma_rows_in_prefix(rows, prefix);
}

proof fn lemma_rows_in_prefix(rows: Seq<RowView>, prefix: Option<Seq<char>>)
    ensures
        rows_in_prefix(rows, prefix) == rows.filter(|r: RowView| in_prefix(prefix, r.path)),
    decreases rows.len(),
{
    reveal(Seq::filter);
    if rows.len() > 0 {
        lemma_rows_in_prefix(rows.drop_last(), prefix);
    }
}

/// A file with chunks and without a secret gets its header call, with its
/// text; one that carries a secret is never sent, and is skipped for it; one
/// without chunks needs no call.
pub proof fn law_only_clean_files_are_sent(
    project: Seq<char>,
    path: Seq<char>,
    blob: Seq<char>,
    text: Seq<char>,
    chunks: Seq<ChunkMeta>,
    had_summary: bool,
)
    ensures
        ({
            let step = header_step_of(project, path, blob, text, chunks, had_summary);
            &&& step is Ask <==> chunks.len() > 0 && secret_label(path, text) is None
            &&& step is Ask ==> step->Ask_0 == header_prompt(project, path, text, chunks)
            &&& chunks.len() > 0 && secret_label(path, text) is Some ==> step->Settled_0.contains(
                WriteView::PutSkipped(path, blob, secret_label(path, text)->0),
            )
            &&& chunks.len() == 0 ==> step->Settled_0 == seq![WriteView::SetStatus(path, "indexed"@)]
        }),
{
    if chunks.len() > 0 && secret_label(path, text) is Some {
        crate::laws::writes::law_skipping_silences_what_was_said(
            project,
            path,
            blob,
            secret_label(path, text)->0,
            had_summary,
        );
    }
}

/// A file whose summary is not of its blob gets a call while calls are left,
/// twice at most; the pass stops where none are left.
pub proof fn law_unsummarised_file_gets_a_call(budget: BudgetView, row: RowView, digest: Option<Seq<char>>)
    ensures
        summary_step_of(budget, row, digest) == SummaryStep::Stop <==> !budget.has_remaining(),
        summary_step_of(budget, row, digest) == SummaryStep::Ask <==> budget.has_remaining() && digest != Some(row.blob)
            && row.summary_attempts < 2,
{
}

// --- backfills ---

/// A backfill embeds, in their order, the first of the chunks that it is for,
/// as many as its limit allows and no fewer, each with its header and text.
pub proof fn law_backfill_takes_the_first(rows: Seq<Unembedded>, ids: Option<Seq<i64>>, limit: nat, cap: int)
    ensures
        ({
            let all = rows.filter(|u: Unembedded| ids is None || (ids->0).contains(u.project_id)).map_values(
                |u: Unembedded| (u.id, embedding_text(opt_view(u.header), u.text@, cap)),
            );
            embed_queue(rows, ids, limit as int, cap) == all.take(if all.len() < limit { all.len() as int } else { limit as int })
        }),
    decreases rows.len(),
{
    reveal(Seq::filter);
    let keep = |u: Unembedded| ids is None || (ids->0).contains(u.project_id);
    let show = |u: Unembedded| (u.id, embedding_text(opt_view(u.header), u.text@, cap));
    let all = rows.filter(keep).map_values(show);
    if rows.len() > 0 {
        let d = rows.drop_last();
        let u = rows.last();
        law_backfill_takes_the_first(d, ids, limit, cap);
        let f = d.filter(keep);
        let sofar = f.map_values(show);
        assert(is_wanted(u, ids) == keep(u));
        if keep(u) {
            assert(f.push(u).map_values(show) =~= sofar.push(show(u)));
            if sofar.len() < limit {
                assert(sofar.take(sofar.len() as int) =~= sofar);
                assert(all.take(all.len() as int) =~= all);
            } else {
                assert(all.take(limit as int) =~= sofar.take(limit as int));
            }
        }
    } else {
        assert(embed_queue(rows, ids, limit as int, cap) =~= all.take(0));
    }
}

/// The total of the skipped files is the sum over the reasons, in whatever
/// order they come.
pub proof fn law_total_is_the_sum(a: Seq<(String, usize)>, b: Seq<(String, usize)>)
    ensures
        total(a + b) == total(a) + total(b),
        a.len() == 1 ==> total(a) == a[0].1,
    decreases b.len(),
{
    if b.len() > 0 {
        law_total_is_the_sum(a, b.drop_last());
        assert((a + b).drop_last() =~= a + b.drop_last());
    } else {
        assert(a + b =~= a);
    }
    if a.len() == 1 {
        assert(total(a.drop_last()) == 0);
    }
}

} // verus!
