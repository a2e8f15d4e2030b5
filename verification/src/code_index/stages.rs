//! The stages that a run takes one project through. The stages' own work is
//! the caller's; what follows on each outcome is decided here.

use vstd::prelude::*;

use crate::code_index::job::{Budget, BudgetView};
use crate::code_index::rows::opt_view;
use crate::text::owned;

verus! {

/// How a project's run ends.
#[derive(Debug, Clone, Copy, PartialEq, Eq, Structural)]
pub enum Ending {
    /// Every stage was gone through.
    Done,
    /// A scope pass was due and no call was left for it.
    ScopeUnaffordable,
    /// The scope pass failed.
    ScopeFailed,
}

/// What the run waits for: the stage that the caller has to perform.
#[derive(Debug, Clone, Copy, PartialEq, Eq, Structural)]
pub enum Stage {
    /// Drop stale scope decisions and see whether a scope pass is due.
    CheckScope,
    /// Make the scope call and store what it decides.
    RunScope,
    /// Compare rows and tree, delete, move, clean up and sweep.
    ApplyChanges,
    /// Chunk the changed files that are in scope.
    ChunkFiles,
    /// Extract the symbols that are missing.
    BackfillSymbols,
    /// Resolve the edges of the whole project.
    ResolveAllEdges,
    /// Resolve the edges that this run touched.
    ResolveNewEdges,
    /// Make the header calls of the dirty files, while the budget lasts.
    FinalizeFiles,
    /// Make the summary calls of the files that still have none.
    SummarizeFiles,
    /// Make the summary calls of the modules.
    SummarizeModules,
    /// Make the summary calls of the months.
    SummarizeMonths,
    /// Count the files that are still dirty.
    CountDirty,
    /// Record the commit as indexed.
    AdvanceHead,
    /// Count symbols and edges.
    CountTotals,
    /// Nothing more: the run has ended.
    Finish(Ending),
}

/// What the caller reports of a stage that it performed.
#[derive(Debug, Clone, Copy, PartialEq, Eq, Structural)]
pub enum Event {
    ScopeChecked { needed: bool },
    ScopeRan { failed: bool },
    ChangesApplied { deleted: usize, moved: usize, swept: usize },
    FilesChunked { chunked: usize, secret: usize },
    SymbolsBackfilled { files: usize },
    EdgesResolved { examined: usize },
    FilesFinalized { attempted: usize },
    FilesSummarized { attempted: usize },
    ModulesSummarized { attempted: usize, pruned: usize },
    MonthsSummarized { attempted: usize },
    DirtyCounted { files: usize },
    HeadAdvanced,
    TotalsCounted { symbols: usize, edges: usize },
}

/// What a project's run has come to so far.
#[derive(Debug, Clone, Copy, PartialEq, Eq, Structural)]
pub struct Counts {
    pub files_chunked: usize,
    pub files_deleted: usize,
    pub files_moved: usize,
    pub files_skipped_secret: usize,
    pub headers_attempted: usize,
    pub headers_failed: usize,
    pub summaries_attempted: usize,
    pub summaries_failed: usize,
    pub modules_attempted: usize,
    pub modules_failed: usize,
    pub modules_pruned: usize,
    pub scope_ran: bool,
    pub head_advanced: bool,
    pub symbols_backfilled: usize,
    pub months_summarized: usize,
    pub months_failed: usize,
    pub symbols_total: usize,
    pub edges_total: usize,
    pub edges_examined: usize,
}

/// One project's run: what it was asked for, the stage it waits for, how many
/// calls had failed when that stage began, and what it has come to.
#[derive(Debug, Clone, Copy, PartialEq, Eq, Structural)]
pub struct ProjectRun {
    pub embedder_up: bool,
    pub history_only: bool,
    pub has_prefix: bool,
    pub first_run: bool,
    pub stage: Stage,
    pub failed_before: usize,
    pub counts: Counts,
}

/// Nothing has happened yet.
pub open spec fn no_counts() -> Counts {
    Counts {
        files_chunked: 0,
        files_deleted: 0,
        files_moved: 0,
        files_skipped_secret: 0,
        headers_attempted: 0,
        headers_failed: 0,
        summaries_attempted: 0,
        summaries_failed: 0,
        modules_attempted: 0,
        modules_failed: 0,
        modules_pruned: 0,
        scope_ran: false,
        head_advanced: false,
        symbols_backfilled: 0,
        months_summarized: 0,
        months_failed: 0,
        symbols_total: 0,
        edges_total: 0,
        edges_examined: 0,
    }
}

/// The stage that a run begins with.
pub open spec fn first_stage(embedder_up: bool, history_only: bool) -> Stage {
    if !history_only {
        Stage::CheckScope
    } else if embedder_up {
        Stage::SummarizeMonths
    } else {
        Stage::CountTotals
    }
}

/// Whether an event reports the stage that the run waits for.
pub open spec fn answers(stage: Stage, event: Event) -> bool {
    match event {
        Event::ScopeChecked { .. } => stage == Stage::CheckScope,
        Event::ScopeRan { .. } => stage == Stage::RunScope,
        Event::ChangesApplied { .. } => stage == Stage::ApplyChanges,
        Event::FilesChunked { .. } => stage == Stage::ChunkFiles,
        Event::SymbolsBackfilled { .. } => stage == Stage::BackfillSymbols,
        Event::EdgesResolved { .. } => stage == Stage::ResolveAllEdges || stage == Stage::ResolveNewEdges,
        Event::FilesFinalized { .. } => stage == Stage::FinalizeFiles,
        Event::FilesSummarized { .. } => stage == Stage::SummarizeFiles,
        Event::ModulesSummarized { .. } => stage == Stage::SummarizeModules,
        Event::MonthsSummarized { .. } => stage == Stage::SummarizeMonths,
        Event::DirtyCounted { .. } => stage == Stage::CountDirty,
        Event::HeadAdvanced => stage == Stage::AdvanceHead,
        Event::TotalsCounted { .. } => stage == Stage::CountTotals,
    }
}

/// The stage that follows on an event, given whether a call is left.
pub open spec fn next_stage(run: ProjectRun, event: Event, remaining: bool) -> Stage {
    match event {
        Event::ScopeChecked { needed } => if !needed {
            Stage::ApplyChanges
        } else if remaining {
            Stage::RunScope
        } else {
            Stage::Finish(Ending::ScopeUnaffordable)
        },
        Event::ScopeRan { failed } => if failed {
            Stage::Finish(Ending::ScopeFailed)
        } else {
            Stage::ApplyChanges
        },
        Event::ChangesApplied { .. } => Stage::ChunkFiles,
        Event::FilesChunked { .. } => Stage::BackfillSymbols,
        Event::SymbolsBackfilled { files } => if run.first_run || files > 0 {
            Stage::ResolveAllEdges
        } else {
            Stage::ResolveNewEdges
        },
        Event::EdgesResolved { .. } => if run.embedder_up {
            Stage::FinalizeFiles
        } else {
            Stage::CountDirty
        },
        Event::FilesFinalized { .. } => Stage::SummarizeFiles,
        Event::FilesSummarized { .. } => Stage::SummarizeModules,
        Event::ModulesSummarized { .. } => if run.has_prefix {
            Stage::CountDirty
        } else {
            Stage::SummarizeMonths
        },
        Event::MonthsSummarized { .. } => if run.history_only {
            Stage::CountTotals
        } else {
            Stage::CountDirty
        },
        Event::DirtyCounted { files } => if files == 0 && !run.has_prefix {
            Stage::AdvanceHead
        } else {
            Stage::CountTotals
        },
        Event::HeadAdvanced => Stage::CountTotals,
        Event::TotalsCounted { .. } => Stage::Finish(Ending::Done),
    }
}

/// The counts after an event; `failures` calls failed since the stage began.
pub open spec fn next_counts(c: Counts, event: Event, failures: int) -> Counts {
    let failed = failures as usize;
    match event {
        Event::ScopeChecked { .. } => c,
        Event::ScopeRan { .. } => Counts { scope_ran: true, ..c },
        Event::ChangesApplied { deleted, moved, swept } => Counts {
            files_deleted: deleted,
            files_moved: moved,
            files_skipped_secret: swept,
            ..c
        },
        Event::FilesChunked { chunked, secret } => Counts {
            files_chunked: chunked,
            files_skipped_secret: (c.files_skipped_secret + secret) as usize,
            ..c
        },
        Event::SymbolsBackfilled { files } => Counts { symbols_backfilled: files, ..c },
        Event::EdgesResolved { examined } => Counts { edges_examined: examined, ..c },
        Event::FilesFinalized { attempted } => Counts { headers_attempted: attempted, headers_failed: failed, ..c },
        Event::FilesSummarized { attempted } => Counts { summaries_attempted: attempted, summaries_failed: failed, ..c },
        Event::ModulesSummarized { attempted, pruned } => Counts {
            modules_attempted: attempted,
            modules_pruned: pruned,
            modules_failed: failed,
            ..c
        },
        Event::MonthsSummarized { attempted } => Counts { months_summarized: attempted, months_failed: failed, ..c },
        Event::DirtyCounted { .. } => c,
        Event::HeadAdvanced => Counts { head_advanced: true, ..c },
        Event::TotalsCounted { symbols, edges } => Counts { symbols_total: symbols, edges_total: edges, ..c },
    }
}

/// What a scope pass adds to the budget: one call, which failed or did not.
pub open spec fn budget_after(b: BudgetView, event: Event) -> BudgetView {
    match event {
        Event::ScopeRan { failed } => b.after(
            if failed {
                Some("scope pass call failed"@)
            } else {
                None
            },
        ),
        _ => b,
    }
}

/// The run after an event, given the budget before it. An event that does not
/// report the awaited stage changes nothing.
pub open spec fn next_run(run: ProjectRun, event: Event, budget: BudgetView) -> ProjectRun {
    if answers(run.stage, event) {
        ProjectRun {
            stage: next_stage(run, event, budget.has_remaining()),
            failed_before: budget_after(budget, event).failed as usize,
            counts: next_counts(run.counts, event, budget.failed - run.failed_before),
            ..run
        }
    } else {
        run
    }
}

impl ProjectRun {
    /// The run of one project, before its first stage.
    pub fn start(embedder_up: bool, history_only: bool, has_prefix: bool, first_run: bool, budget: &Budget) -> (r: Self)
        ensures
            r == (ProjectRun {
                embedder_up,
                history_only,
                has_prefix,
                first_run,
                stage: first_stage(embedder_up, history_only),
                failed_before: budget@.failed as usize,
                counts: no_counts(),
            }),
            r.failed_before == budget@.failed,
    {
        let stage = if !history_only {
            Stage::CheckScope
        } else if embedder_up {
            Stage::SummarizeMonths
        } else {
            Stage::CountTotals
        };
        ProjectRun { embedder_up, history_only, has_prefix, first_run, stage, failed_before: budget.failed(), counts: Counts::none() }
    }

    /// Takes the report of a stage and goes on to the next.
    pub fn advance(&mut self, event: Event, budget: &mut Budget)
        requires
            old(self).failed_before <= old(budget)@.failed,
            event is ScopeRan ==> old(budget)@.used < usize::MAX,
            event is FilesChunked ==> old(self).counts.files_skipped_secret + event->secret <= usize::MAX,
        ensures
            *final(self) == next_run(*old(self), event, old(budget)@),
            answers(old(self).stage, event) ==> final(budget)@ == budget_after(old(budget)@, event),
            !answers(old(self).stage, event) ==> final(budget)@ == old(budget)@,
            final(self).failed_before <= final(budget)@.failed,
    {
        let remaining: bool = budget.remaining();
        let failed_now: usize = budget.failed();
        let failures: usize = failed_now - self.failed_before;
        let next: Stage = match (self.stage, event) {
            (Stage::CheckScope, Event::ScopeChecked { needed }) => {
                if !needed {
                    Stage::ApplyChanges
                } else if remaining {
                    Stage::RunScope
                } else {
                    Stage::Finish(Ending::ScopeUnaffordable)
                }
            },
            (Stage::RunScope, Event::ScopeRan { failed }) => {
                if failed {
                    budget.record(Some("scope pass call failed"));
                } else {
                    budget.record(None);
                }
                self.counts.scope_ran = true;
                if failed {
                    Stage::Finish(Ending::ScopeFailed)
                } else {
                    Stage::ApplyChanges
                }
            },
            (Stage::ApplyChanges, Event::ChangesApplied { deleted, moved, swept }) => {
                self.counts.files_deleted = deleted;
                self.counts.files_moved = moved;
                self.counts.files_skipped_secret = swept;
                Stage::ChunkFiles
            },
            (Stage::ChunkFiles, Event::FilesChunked { chunked, secret }) => {
                self.counts.files_chunked = chunked;
                self.counts.files_skipped_secret = self.counts.files_skipped_secret + secret;
                Stage::BackfillSymbols
            },
            (Stage::BackfillSymbols, Event::SymbolsBackfilled { files }) => {
                self.counts.symbols_backfilled = files;
                if self.first_run || files > 0 {
                    Stage::ResolveAllEdges
                } else {
                    Stage::ResolveNewEdges
                }
            },
            (Stage::ResolveAllEdges | Stage::ResolveNewEdges, Event::EdgesResolved { examined }) => {
                self.counts.edges_examined = examined;
                if self.embedder_up {
                    Stage::FinalizeFiles
                } else {
                    Stage::CountDirty
                }
            },
            (Stage::FinalizeFiles, Event::FilesFinalized { attempted }) => {
                self.counts.headers_attempted = attempted;
                self.counts.headers_failed = failures;
                Stage::SummarizeFiles
            },
            (Stage::SummarizeFiles, Event::FilesSummarized { attempted }) => {
                self.counts.summaries_attempted = attempted;
                self.counts.summaries_failed = failures;
                Stage::SummarizeModules
            },
            (Stage::SummarizeModules, Event::ModulesSummarized { attempted, pruned }) => {
                self.counts.modules_attempted = attempted;
                self.counts.modules_pruned = pruned;
                self.counts.modules_failed = failures;
                if self.has_prefix {
                    Stage::CountDirty
                } else {
                    Stage::SummarizeMonths
                }
            },
            (Stage::SummarizeMonths, Event::MonthsSummarized { attempted }) => {
                self.counts.months_summarized = attempted;
                self.counts.months_failed = failures;
                if self.history_only {
                    Stage::CountTotals
                } else {
                    Stage::CountDirty
                }
            },
            (Stage::CountDirty, Event::DirtyCounted { files }) => {
                if files == 0 && !self.has_prefix {
                    Stage::AdvanceHead
                } else {
                    Stage::CountTotals
                }
            },
            (Stage::AdvanceHead, Event::HeadAdvanced) => {
                self.counts.head_advanced = true;
                Stage::CountTotals
            },
            (Stage::CountTotals, Event::TotalsCounted { symbols, edges }) => {
                self.counts.symbols_total = symbols;
                self.counts.edges_total = edges;
                Stage::Finish(Ending::Done)
            },
            _ => {
                return;
            },
        };
        self.stage = next;
        self.failed_before = budget.failed();
    }
}

// --- what holds of every run ---

/// What holds of a run at every stage: no model is called where the embedder
/// is down, a run over a prefix never touches the history nor records the
/// commit, and a history run does nothing but the history.
pub open spec fn sound(run: ProjectRun) -> bool {
    &&& run.stage == Stage::FinalizeFiles || run.stage == Stage::SummarizeFiles || run.stage == Stage::SummarizeModules
        || run.stage == Stage::SummarizeMonths ==> run.embedder_up
    &&& run.stage == Stage::SummarizeMonths || run.stage == Stage::AdvanceHead ==> !run.has_prefix
    &&& run.counts.head_advanced ==> !run.has_prefix
    &&& run.history_only ==> (run.stage == Stage::SummarizeMonths || run.stage == Stage::CountTotals || run.stage
        == Stage::Finish(Ending::Done)) && !run.counts.head_advanced
    &&& !run.embedder_up ==> run.counts.headers_attempted == 0 && run.counts.summaries_attempted == 0
        && run.counts.modules_attempted == 0 && run.counts.months_summarized == 0
    &&& run.has_prefix ==> run.counts.months_summarized == 0
}

/// How far a stage is along.
pub open spec fn rank(stage: Stage) -> int {
    match stage {
        Stage::CheckScope => 0,
        Stage::RunScope => 1,
        Stage::ApplyChanges => 2,
        Stage::ChunkFiles => 3,
        Stage::BackfillSymbols => 4,
        Stage::ResolveAllEdges => 5,
        Stage::ResolveNewEdges => 5,
        Stage::FinalizeFiles => 6,
        Stage::SummarizeFiles => 7,
        Stage::SummarizeModules => 8,
        Stage::SummarizeMonths => 9,
        Stage::CountDirty => 10,
        Stage::AdvanceHead => 11,
        Stage::CountTotals => 12,
        Stage::Finish(_) => 13,
    }
}

/// A run begins sound, where the options do not ask for the history of a
/// prefix.
pub proof fn law_run_starts_sound(run: ProjectRun)
    requires
        run.stage == first_stage(run.embedder_up, run.history_only),
        run.counts == no_counts(),
        !(run.history_only && run.has_prefix),
    ensures
        sound(run),
{
}

/// A sound run stays sound whatever is reported, and every report of the
/// awaited stage brings it nearer to its end, so it ends.
pub proof fn law_run_stays_sound_and_ends(run: ProjectRun, event: Event, budget: BudgetView)
    requires
        sound(run),
    ensures
        sound(next_run(run, event, budget)),
        answers(run.stage, event) ==> rank(next_run(run, event, budget).stage) > rank(run.stage),
        !answers(run.stage, event) ==> next_run(run, event, budget) == run,
{
}

/// The commit is recorded as indexed only in a run without a prefix, and only
/// when no file was left dirty.
pub proof fn law_head_advances_only_when_nothing_is_dirty(run: ProjectRun, event: Event, budget: BudgetView)
    requires
        run.stage != Stage::AdvanceHead,
        next_run(run, event, budget).stage == Stage::AdvanceHead,
    ensures
        event == (Event::DirtyCounted { files: 0 }),
        !run.has_prefix,
{
}

/// A project whose scope pass is due and fails, or cannot be afforded, is left
/// alone: the run ends before any change is applied.
pub proof fn law_no_change_without_scope(run: ProjectRun, event: Event, budget: BudgetView)
    requires
        run.stage == Stage::CheckScope && event == (Event::ScopeChecked { needed: true }) && !budget.has_remaining()
            || run.stage == Stage::RunScope && event == (Event::ScopeRan { failed: true }),
    ensures
        next_run(run, event, budget).stage is Finish,
        next_run(run, event, budget).stage != Stage::Finish(Ending::Done),
{
}

// --- what a run reports ---

/// What a run came to for one project.
#[derive(Debug, Clone)]
pub struct ProjectOutcome {
    pub project: String,
    pub skipped_reason: Option<String>,
    pub error: Option<String>,
    pub files_chunked: usize,
    pub files_deleted: usize,
    pub files_moved: usize,
    pub files_skipped_secret: usize,
    pub headers_attempted: usize,
    pub headers_failed: usize,
    pub summaries_attempted: usize,
    pub summaries_failed: usize,
    pub modules_attempted: usize,
    pub modules_failed: usize,
    pub modules_pruned: usize,
    pub scope_ran: bool,
    pub head_advanced: bool,
    pub symbols_backfilled: usize,
    pub months_summarized: usize,
    pub months_failed: usize,
    pub symbols_total: usize,
    pub edges_total: usize,
    pub edges_examined: usize,
}

/// Why a project was skipped.
pub open spec fn skip_reason(ending: Ending) -> Option<Seq<char>> {
    match ending {
        Ending::Done => None,
        Ending::ScopeUnaffordable => Some("scope pass needed but budget spent; resumes next run"@),
        Ending::ScopeFailed => Some("scope pass LLM call failed; retried next run"@),
    }
}

impl ProjectOutcome {
    /// The counts of an outcome.
    pub open spec fn counts(self) -> Counts {
        Counts {
            files_chunked: self.files_chunked,
            files_deleted: self.files_deleted,
            files_moved: self.files_moved,
            files_skipped_secret: self.files_skipped_secret,
            headers_attempted: self.headers_attempted,
            headers_failed: self.headers_failed,
            summaries_attempted: self.summaries_attempted,
            summaries_failed: self.summaries_failed,
            modules_attempted: self.modules_attempted,
            modules_failed: self.modules_failed,
            modules_pruned: self.modules_pruned,
            scope_ran: self.scope_ran,
            head_advanced: self.head_advanced,
            symbols_backfilled: self.symbols_backfilled,
            months_summarized: self.months_summarized,
            months_failed: self.months_failed,
            symbols_total: self.symbols_total,
            edges_total: self.edges_total,
            edges_examined: self.edges_examined,
        }
    }

    fn assemble(project: &str, skipped_reason: Option<String>, error: Option<String>, c: Counts) -> (r: ProjectOutcome)
        ensures
            r.project@ == project@,
            r.skipped_reason == skipped_reason,
            r.error == error,
            r.counts() == c,
    {
        ProjectOutcome {
            project: owned(project),
            skipped_reason,
            error,
            files_chunked: c.files_chunked,
            files_deleted: c.files_deleted,
            files_moved: c.files_moved,
            files_skipped_secret: c.files_skipped_secret,
            headers_attempted: c.headers_attempted,
            headers_failed: c.headers_failed,
            summaries_attempted: c.summaries_attempted,
            summaries_failed: c.summaries_failed,
            modules_attempted: c.modules_attempted,
            modules_failed: c.modules_failed,
            modules_pruned: c.modules_pruned,
            scope_ran: c.scope_ran,
            head_advanced: c.head_advanced,
            symbols_backfilled: c.symbols_backfilled,
            months_summarized: c.months_summarized,
            months_failed: c.months_failed,
            symbols_total: c.symbols_total,
            edges_total: c.edges_total,
            edges_examined: c.edges_examined,
        }
    }

    /// What a finished run came to.
    pub fn of_run(project: &str, run: &ProjectRun) -> (r: Option<ProjectOutcome>)
        ensures
            r is Some <==> run.stage is Finish,
            r is Some ==> (r->0).project@ == project@ && opt_view((r->0).skipped_reason) == skip_reason(run.stage->Finish_0)
                && (r->0).error is None && (r->0).counts() == run.counts,
    {
        let ending = match run.stage {
            Stage::Finish(e) => e,
            _ => {
                return None;
            },
        };
        let skipped_reason = match ending {
            Ending::Done => None,
            Ending::ScopeUnaffordable => Some(owned("scope pass needed but budget spent; resumes next run")),
            Ending::ScopeFailed => Some(owned("scope pass LLM call failed; retried next run")),
        };
        Some(ProjectOutcome::assemble(project, skipped_reason, None, run.counts))
    }

    /// What becomes of a project that is no git repository.
    pub fn not_a_repo(project: &str) -> (r: ProjectOutcome)
        ensures
            r.project@ == project@,
            opt_view(r.skipped_reason) == Some("not a git repo"@),
            r.error is None,
            r.counts() == no_counts(),
    {
        ProjectOutcome::assemble(project, Some(owned("not a git repo")), None, Counts::none())
    }

    /// What becomes of a project whose run failed.
    pub fn failed(project: &str, error: &str) -> (r: ProjectOutcome)
        ensures
            r.project@ == project@,
            r.skipped_reason is None,
            opt_view(r.error) == Some(error@),
            r.counts() == no_counts(),
    {
        ProjectOutcome::assemble(project, None, Some(owned(error)), Counts::none())
    }
}

impl Counts {
    /// Nothing has happened yet.
    pub fn none() -> (r: Counts)
        ensures
            r == no_counts(),
    {
        Counts {
            files_chunked: 0,
            files_deleted: 0,
            files_moved: 0,
            files_skipped_secret: 0,
            headers_attempted: 0,
            headers_failed: 0,
            summaries_attempted: 0,
            summaries_failed: 0,
            modules_attempted: 0,
            modules_failed: 0,
            modules_pruned: 0,
            scope_ran: false,
            head_advanced: false,
            symbols_backfilled: 0,
            months_summarized: 0,
            months_failed: 0,
            symbols_total: 0,
            edges_total: 0,
            edges_examined: 0,
        }
    }
}

} // verus!
