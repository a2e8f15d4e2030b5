//! Laws of a project's run through its stages.

use vstd::prelude::*;

use crate::code_index::job::BudgetView;
use crate::code_index::stages::{next_run, no_counts, Ending, Event, ProjectRun, Stage};

verus! {

/// What the stages of a whole run report, and how many calls of the run had
/// failed when each of them ended.
pub ghost struct Reports {
    pub deleted: usize,
    pub moved: usize,
    pub swept: usize,
    pub chunked: usize,
    pub secret: usize,
    pub backfilled: usize,
    pub examined: usize,
    pub headers: usize,
    pub summaries: usize,
    pub modules: usize,
    pub pruned: usize,
    pub months: usize,
    pub dirty: usize,
    pub symbols: usize,
    pub edges: usize,
}

/// A run after the stages that make no call.
pub open spec fn after_reading(run: ProjectRun, r: Reports, b: BudgetView) -> ProjectRun {
    let a = next_run(run, Event::ScopeChecked { needed: false }, b);
    let c = next_run(a, Event::ChangesApplied { deleted: r.deleted, moved: r.moved, swept: r.swept }, b);
    let d = next_run(c, Event::FilesChunked { chunked: r.chunked, secret: r.secret }, b);
    let e = next_run(d, Event::SymbolsBackfilled { files: r.backfilled }, b);
    next_run(e, Event::EdgesResolved { examined: r.examined }, b)
}

/// A run after the stages that make calls, with the budget at the end of each.
pub open spec fn after_calls(
    run: ProjectRun,
    r: Reports,
    b1: BudgetView,
    b2: BudgetView,
    b3: BudgetView,
    b4: BudgetView,
) -> ProjectRun {
    let a = next_run(run, Event::FilesFinalized { attempted: r.headers }, b1);
    let c = next_run(a, Event::FilesSummarized { attempted: r.summaries }, b2);
    let d = next_run(c, Event::ModulesSummarized { attempted: r.modules, pruned: r.pruned }, b3);
    next_run(d, Event::MonthsSummarized { attempted: r.months }, b4)
}

/// A whole run reports what each of its stages came to, with the failures of
/// each stage under that stage; and its commit counts as indexed exactly where
/// no file is left dirty.
pub proof fn law_whole_run_reports_every_stage(
    run: ProjectRun,
    r: Reports,
    b: BudgetView,
    b1: BudgetView,
    b2: BudgetView,
    b3: BudgetView,
    b4: BudgetView,
)
    requires
        run.stage == Stage::CheckScope,
        run.embedder_up,
        !run.history_only,
        !run.has_prefix,
        run.counts == no_counts(),
        r.swept + r.secret <= usize::MAX,
        0 <= b.failed <= b1.failed <= b2.failed <= b3.failed <= b4.failed <= usize::MAX,
    ensures
        ({
            let x = after_calls(after_reading(run, r, b), r, b1, b2, b3, b4);
            let y = next_run(x, Event::DirtyCounted { files: r.dirty }, b4);
            let z = if r.dirty == 0 {
                next_run(y, Event::HeadAdvanced, b4)
            } else {
                y
            };
            let end = next_run(z, Event::TotalsCounted { symbols: r.symbols, edges: r.edges }, b4);
            &&& end.stage == Stage::Finish(Ending::Done)
            &&& end.counts.files_deleted == r.deleted
            &&& end.counts.files_moved == r.moved
            &&& end.counts.files_skipped_secret == r.swept + r.secret
            &&& end.counts.files_chunked == r.chunked
            &&& end.counts.symbols_backfilled == r.backfilled
            &&& end.counts.edges_examined == r.examined
            &&& end.counts.headers_attempted == r.headers
            &&& end.counts.headers_failed == b1.failed - b.failed
            &&& end.counts.summaries_attempted == r.summaries
            &&& end.counts.summaries_failed == b2.failed - b1.failed
            &&& end.counts.modules_attempted == r.modules
            &&& end.counts.modules_pruned == r.pruned
            &&& end.counts.modules_failed == b3.failed - b2.failed
            &&& end.counts.months_summarized == r.months
            &&& end.counts.months_failed == b4.failed - b3.failed
            &&& end.counts.symbols_total == r.symbols
            &&& end.counts.edges_total == r.edges
            &&& end.counts.head_advanced == (r.dirty == 0)
            &&& !end.counts.scope_ran
        }),
{
}

/// Without an embedder a run reads and counts but makes no call.
pub proof fn law_no_call_without_an_embedder(run: ProjectRun, r: Reports, b: BudgetView)
    requires
        run.stage == Stage::CheckScope,
        !run.embedder_up,
    ensures
        after_reading(run, r, b).stage == Stage::CountDirty,
{
}

/// A run over a prefix summarises no months and never advances the head.
pub proof fn law_prefix_run_stays_within(run: ProjectRun, attempted: usize, pruned: usize, files: usize, b: BudgetView)
    requires
        run.has_prefix,
    ensures
        run.stage == Stage::SummarizeModules ==> next_run(run, Event::ModulesSummarized { attempted, pruned }, b).stage
            == Stage::CountDirty,
        run.stage == Stage::CountDirty ==> next_run(run, Event::DirtyCounted { files }, b).stage == Stage::CountTotals,
{
}

/// A scope pass that is due is made while a call is left, and the run then goes
/// on with the changes; edges are all resolved on a first run and where symbols
/// were missing.
pub proof fn law_due_stages_are_made(run: ProjectRun, files: usize, b: BudgetView)
    ensures
        run.stage == Stage::CheckScope && b.has_remaining() ==> next_run(run, Event::ScopeChecked { needed: true }, b).stage
            == Stage::RunScope,
        run.stage == Stage::RunScope ==> next_run(run, Event::ScopeRan { failed: false }, b).stage == Stage::ApplyChanges
            && next_run(run, Event::ScopeRan { failed: false }, b).counts.scope_ran,
        run.stage == Stage::BackfillSymbols ==> (next_run(run, Event::SymbolsBackfilled { files }, b).stage
            == Stage::ResolveAllEdges <==> run.first_run || files > 0),
{
}

} // verus!
