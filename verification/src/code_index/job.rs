//! The incremental index run: its options, the budget of model calls it may
//! spend, the stages that it takes a project through, and what it reports.

use vstd::prelude::*;

use crate::code_index::changes::{in_prefix, prefix_matcher, Changes};
use crate::code_index::reply::{
    build_header_prompt, build_summary_prompt, embedding_input, embedding_text, file_block, header_prompt, ChunkMeta,
    SUMMARY_PROMPT_TAIL,
};
use crate::code_index::rows::{
    files_view, lemma_files_push, opt_str_view, opt_view, rows_view, CodeFileRow, FileView, RowView, TrackedFile,
};
use crate::code_index::secrets;
use crate::code_index::stages::{no_counts, ProjectOutcome};
use crate::code_index::writes::{mark_skipped, skip_writes, writes_view, Write, WriteView, SUMMARY_GIVE_UP_ATTEMPTS};
use crate::error::KbError;
use crate::order::{
    add_text, before, lemma_before_asymmetric, lemma_before_total, lemma_before_transitive, sorted_set, text_before,
    with_text,
};
use crate::text::{
    chars_of, ends_with, has_suffix, lines, lines_of, owned, push_text, same, same_text, starts_with, string_of, texts,
    trim_end_of, trimmed_end_of, views,
};

verus! {

/// How many model calls one run may make.
pub const DEFAULT_BUDGET: usize = 300;

/// How many failed calls in a row stop a run.
pub const MAX_CONSECUTIVE_FAILURES: usize = 5;

/// How many missing chunk embeddings one run makes up for.
pub const EMBED_BACKFILL_PER_RUN: usize = 1_000;

/// For how many files one run extracts missing symbols.
pub const SYMBOL_BACKFILL_PER_RUN: usize = 500;

/// How many seconds a header or file-summary call may take.
pub const TIMEOUT_INDEX_HAIKU_SECS: u64 = 120;

/// How many seconds a scope, module or history call may take.
pub const TIMEOUT_INDEX_SONNET_SECS: u64 = 180;

/// What is embedded to see whether the embedder answers at all.
pub const EMBEDDER_PING: &'static str = "mach kb index: embedder reachability check";

/// What a run was asked to do.
#[derive(Debug, Clone)]
pub struct IndexOptions {
    pub project: Option<String>,
    pub budget: usize,
    pub path_prefix: Option<String>,
    pub dry_run: bool,
    pub history_only: bool,
}

impl IndexOptions {
    /// Every project, the default budget, and no restriction.
    pub open spec fn is_plain(self) -> bool {
        &&& self.project is None
        &&& self.budget == DEFAULT_BUDGET
        &&& self.path_prefix is None
        &&& !self.dry_run
        &&& !self.history_only
    }

    pub fn new() -> (r: Self)
        ensures
            r.is_plain(),
    {
        IndexOptions { project: None, budget: DEFAULT_BUDGET, path_prefix: None, dry_run: false, history_only: false }
    }
}

impl Default for IndexOptions {
    fn default() -> (r: Self)
        ensures
            r.is_plain(),
    {
        IndexOptions::new()
    }
}

// --- the budget ---

/// The model calls of one run: how many it may make, and how those it made
/// came out.
#[derive(Debug)]
pub struct Budget {
    limit: usize,
    used: usize,
    failed: usize,
    consecutive_failures: usize,
    last_error: Option<String>,
}

/// What a budget holds.
pub ghost struct BudgetView {
    pub limit: int,
    pub used: int,
    pub failed: int,
    pub consecutive_failures: int,
    pub last_error: Option<Seq<char>>,
}

impl View for Budget {
    type V = BudgetView;

    closed spec fn view(&self) -> BudgetView {
        BudgetView {
            limit: self.limit as int,
            used: self.used as int,
            failed: self.failed as int,
            consecutive_failures: self.consecutive_failures as int,
            last_error: opt_view(self.last_error),
        }
    }
}

impl BudgetView {
    /// A budget of which nothing is spent.
    pub open spec fn fresh(limit: int) -> BudgetView {
        BudgetView { limit, used: 0, failed: 0, consecutive_failures: 0, last_error: None }
    }

    /// Too many calls in a row have failed.
    pub open spec fn is_tripped(self) -> bool {
        self.consecutive_failures >= MAX_CONSECUTIVE_FAILURES
    }

    /// Another call may be made.
    pub open spec fn has_remaining(self) -> bool {
        self.used < self.limit && !self.is_tripped()
    }

    /// The budget after one more call: with an error, or without one, which
    /// ends a row of failures.
    pub open spec fn after(self, error: Option<Seq<char>>) -> BudgetView {
        match error {
            None => BudgetView { used: self.used + 1, consecutive_failures: 0, ..self },
            Some(e) => BudgetView {
                limit: self.limit,
                used: self.used + 1,
                failed: self.failed + 1,
                consecutive_failures: self.consecutive_failures + 1,
                last_error: Some(e),
            },
        }
    }

    /// The budget after a sequence of calls.
    pub open spec fn after_all(self, errors: Seq<Option<Seq<char>>>) -> BudgetView
        decreases errors.len(),
    {
        if errors.len() == 0 {
            self
        } else {
            self.after_all(errors.drop_last()).after(errors.last())
        }
    }

    /// The counts fit together.
    pub open spec fn wf(self) -> bool {
        0 <= self.consecutive_failures <= self.failed <= self.used
    }
}

impl Budget {
    /// The failures in a row are among the failures, and those among the calls.
    #[verifier::type_invariant]
    spec fn inv(self) -> bool {
        self.consecutive_failures <= self.failed <= self.used
    }

    /// A budget of `limit` calls, none of them made.
    pub fn new(limit: usize) -> (r: Self)
        ensures
            r@ == BudgetView::fresh(limit as int),
    {
        Budget { limit, used: 0, failed: 0, consecutive_failures: 0, last_error: None }
    }

    /// Whether another call may be made.
    pub fn remaining(&self) -> (r: bool)
        ensures
            r == self@.has_remaining(),
    {
        self.used < self.limit && !self.tripped()
    }

    /// Counts one call, with its error if it failed.
    pub fn record(&mut self, error: Option<&str>)
        requires
            old(self)@.used < usize::MAX,
        ensures
            final(self)@ == old(self)@.after(opt_str_view(error)),
    {
        proof {
            use_type_invariant(&*self);
        }
        self.used = self.used + 1;
        match error {
            None => {
                self.consecutive_failures = 0;
            },
            Some(e) => {
                self.failed = self.failed + 1;
                self.consecutive_failures = self.consecutive_failures + 1;
                self.last_error = Some(owned(e));
            },
        }
    }

    /// How many calls were made.
    pub fn used(&self) -> (r: usize)
        ensures
            r == self@.used,
    {
        self.used
    }

    /// How many calls failed.
    pub fn failed(&self) -> (r: usize)
        ensures
            r == self@.failed,
    {
        self.failed
    }

    /// Whether too many calls in a row have failed.
    pub fn tripped(&self) -> (r: bool)
        ensures
            r == self@.is_tripped(),
    {
        self.consecutive_failures >= MAX_CONSECUTIVE_FAILURES
    }

    /// The error of the last call that failed.
    pub fn last_error(&self) -> (r: Option<String>)
        ensures
            opt_view(r) == self@.last_error,
    {
        match &self.last_error {
            Some(e) => Some(e.clone()),
            None => None,
        }
    }
}

/// How many of the calls failed.
pub open spec fn failures(errors: Seq<Option<Seq<char>>>) -> int
    decreases errors.len(),
{
    if errors.len() == 0 {
        0
    } else {
        failures(errors.drop_last()) + (if errors.last() is Some {
            1int
        } else {
            0
        })
    }
}

/// How many of the last calls failed without a success among them.
pub open spec fn failing_tail(errors: Seq<Option<Seq<char>>>) -> int
    decreases errors.len(),
{
    if errors.len() > 0 && errors.last() is Some {
        1 + failing_tail(errors.drop_last())
    } else {
        0
    }
}

/// A fresh budget counts every call, every failure, and the failures since the
/// last success.
pub proof fn law_budget_counts(limit: int, errors: Seq<Option<Seq<char>>>)
    ensures
        ({
            let b = BudgetView::fresh(limit).after_all(errors);
            &&& b.limit == limit
            &&& b.used == errors.len()
            &&& b.failed == failures(errors)
            &&& b.consecutive_failures == failing_tail(errors)
            &&& b.wf()
        }),
    decreases errors.len(),
{
    if errors.len() > 0 {
        law_budget_counts(limit, errors.drop_last());
    }
}

/// A run that makes a call only while something remains makes no more calls
/// than its budget allows.
pub proof fn law_budget_is_never_exceeded(limit: int, errors: Seq<Option<Seq<char>>>)
    requires
        0 <= limit,
        forall|i: int|
            0 <= i < errors.len() ==> (#[trigger] BudgetView::fresh(limit).after_all(errors.take(i))).has_remaining(),
    ensures
        errors.len() <= limit,
{
    if errors.len() > 0 {
        let n = errors.len() - 1;
        law_budget_counts(limit, errors.take(n));
        assert(BudgetView::fresh(limit).after_all(errors.take(n)).has_remaining());
    }
}

/// A run stops before its budget is spent exactly when its last five calls all
/// failed: one success among them keeps it going.
pub proof fn law_budget_trips_on_five_failures_in_a_row(limit: int, errors: Seq<Option<Seq<char>>>)
    ensures
        BudgetView::fresh(limit).after_all(errors).is_tripped() <==> errors.len() >= MAX_CONSECUTIVE_FAILURES && forall|
            i: int,
        |
            errors.len() - MAX_CONSECUTIVE_FAILURES <= i < errors.len() ==> (#[trigger] errors[i]) is Some,
{
    law_budget_counts(limit, errors);
    lemma_failing_tail(errors, MAX_CONSECUTIVE_FAILURES as int);
}

proof fn lemma_failing_tail(errors: Seq<Option<Seq<char>>>, n: int)
    requires
        0 <= n,
    ensures
        failing_tail(errors) >= n <==> errors.len() >= n && forall|i: int|
            errors.len() - n <= i < errors.len() ==> (#[trigger] errors[i]) is Some,
        0 <= failing_tail(errors) <= errors.len(),
    decreases errors.len(),
{
    if errors.len() > 0 {
        let d = errors.drop_last();
        if n > 0 {
            lemma_failing_tail(d, n - 1);
            if errors.len() >= n && forall|i: int|
                errors.len() - n <= i < errors.len() ==> (#[trigger] errors[i]) is Some {
                assert(errors[errors.len() - 1] is Some);
                assert forall|i: int| d.len() - (n - 1) <= i < d.len() implies (#[trigger] d[i]) is Some by {
                    assert(errors[i] is Some);
                }
            }
            if failing_tail(errors) >= n {
                assert forall|i: int| errors.len() - n <= i < errors.len() implies (#[trigger] errors[i]) is Some by {
                    if i < d.len() {
                        assert(d[i] is Some);
                    }
                }
            }
        } else {
            lemma_failing_tail(d, 0);
        }
    }
}

// --- which projects ---

/// A registered project.
#[derive(Debug, Clone, PartialEq, Eq)]
pub struct ProjectRow {
    pub id: i64,
    pub name: String,
    pub root_path: String,
}

/// What a project row holds.
pub ghost struct ProjectView {
    pub id: i64,
    pub name: Seq<char>,
    pub root_path: Seq<char>,
}

impl View for ProjectRow {
    type V = ProjectView;

    open spec fn view(&self) -> ProjectView {
        ProjectView { id: self.id, name: self.name@, root_path: self.root_path@ }
    }
}

impl ProjectRow {
    pub fn copied(&self) -> (r: ProjectRow)
        ensures
            r@ == self@,
    {
        ProjectRow { id: self.id, name: self.name.clone(), root_path: self.root_path.clone() }
    }
}

pub open spec fn projects_view(v: Seq<ProjectRow>) -> Seq<ProjectView> {
    Seq::new(v.len(), |i: int| v[i]@)
}

/// The projects of a name.
pub open spec fn named(all: Seq<ProjectView>, name: Seq<char>) -> Seq<ProjectView>
    decreases all.len(),
{
    if all.len() == 0 {
        Seq::empty()
    } else if all.last().name == name {
        named(all.drop_last(), name).push(all.last())
    } else {
        named(all.drop_last(), name)
    }
}

/// The projects that a filter by name picks.
pub open spec fn picked(all: Seq<ProjectView>, filter: Option<Seq<char>>) -> Seq<ProjectView> {
    match filter {
        None => all,
        Some(name) => named(all, name),
    }
}

/// The refusal of a name that no project has.
pub open spec fn unknown_project(name: Seq<char>) -> Seq<char> {
    "unknown project '"@ + name + "' (see `mach kb projects`)"@
}

/// Picks the projects of a name, or all. A name that no project has is refused.
pub fn filter_projects(all: &Vec<ProjectRow>, filter: Option<&str>) -> (r: Result<Vec<ProjectRow>, KbError>)
    ensures
        r is Err ==> r->Err_0 is Other,
        r is Err <==> filter is Some && named(projects_view(all@), filter->0@).len() == 0,
        r is Ok ==> projects_view(r->Ok_0@) == picked(projects_view(all@), opt_str_view(filter)),
        r is Err ==> r->Err_0@ == unknown_project(filter->0@),
{
    let ghost av = projects_view(all@);
    let mut out: Vec<ProjectRow> = Vec::new();
    let mut i: usize = 0;
    assert(projects_view(out@) =~= picked(av.take(0), opt_str_view(filter)));
    while i < all.len()
        invariant
            i <= all@.len(),
            av == projects_view(all@),
            projects_view(out@) == picked(av.take(i as int), opt_str_view(filter)),
        decreases all@.len() - i,
    {
        assert(av.take(i + 1).drop_last() =~= av.take(i as int));
        assert(av.take(i + 1).last() == all@[i as int]@);
        let take: bool = match filter {
            None => true,
            Some(name) => same_text(all[i].name.as_str(), name),
        };
        if take {
            let p = all[i].copied();
            let ghost done = out@;
            out.push(p);
            assert(projects_view(out@) =~= projects_view(done).push(p@));
            assert(filter is None ==> av.take(i + 1) =~= av.take(i as int).push(p@));
        }
        i = i + 1;
    }
    assert(av.take(i as int) =~= av);
    if let Some(name) = filter {
        if out.len() == 0 {
            assert(projects_view(out@).len() == 0);
            let mut m = chars_of("unknown project '");
            push_text(&mut m, name);
            push_text(&mut m, "' (see `mach kb projects`)");
            return Err(KbError::Other(string_of(m.as_slice())));
        }
        assert(projects_view(out@).len() == out@.len());
    }
    Ok(out)
}

/// Why options that contradict each other are refused, if they do.
pub open spec fn option_refusal(opts: IndexOptions) -> Option<Seq<char>> {
    if opts.path_prefix is Some && opts.project is None {
        Some("--path-prefix requires --project"@)
    } else if opts.history_only && opts.project is None {
        Some("--history-only requires --project"@)
    } else if opts.history_only && opts.path_prefix is Some {
        Some("--history-only cannot be combined with --path-prefix"@)
    } else {
        None
    }
}

/// The projects that the options select: refused where the options contradict
/// each other, or name a project that does not exist.
pub fn selected_projects(all: &Vec<ProjectRow>, opts: &IndexOptions) -> (r: Result<Vec<ProjectRow>, KbError>)
    ensures
        r is Err ==> r->Err_0 is Other,
        option_refusal(*opts) is Some ==> r is Err && Some(r->Err_0@) == option_refusal(*opts),
        option_refusal(*opts) is None ==> (r is Err <==> opts.project is Some && named(
            projects_view(all@),
            opts.project->0@,
        ).len() == 0),
        option_refusal(*opts) is None && r is Err ==> r->Err_0@ == unknown_project(opts.project->0@),
        r is Ok ==> projects_view(r->Ok_0@) == picked(projects_view(all@), opt_view(opts.project)),
{
    if opts.path_prefix.is_some() && opts.project.is_none() {
        return Err(KbError::Other(owned("--path-prefix requires --project")));
    }
    if opts.history_only && opts.project.is_none() {
        return Err(KbError::Other(owned("--history-only requires --project")));
    }
    if opts.history_only && opts.path_prefix.is_some() {
        return Err(KbError::Other(owned("--history-only cannot be combined with --path-prefix")));
    }
    match &opts.project {
        Some(p) => filter_projects(all, Some(p.as_str())),
        None => filter_projects(all, None),
    }
}

// --- planning ---

/// What a run would do for one project.
#[derive(Debug, Clone)]
pub struct ProjectPlan {
    pub project: String,
    pub skipped_reason: Option<String>,
    pub files_to_index: usize,
    pub files_to_delete: usize,
    pub files_moved: usize,
    pub needs_scope: bool,
    pub months_to_summarize: usize,
    pub modules_stale: usize,
    pub calls_needed: usize,
}

/// The files whose path does not flag them as holding a secret.
pub open spec fn clean_paths(files: Seq<FileView>) -> Seq<FileView>
    decreases files.len(),
{
    if files.len() == 0 {
        Seq::empty()
    } else if secrets::path_label(files.last().path) is None {
        clean_paths(files.drop_last()).push(files.last())
    } else {
        clean_paths(files.drop_last())
    }
}

/// Leaves out the files whose path flags them as holding a secret.
pub fn without_secret_paths(files: &Vec<TrackedFile>) -> (r: Vec<TrackedFile>)
    ensures
        files_view(r@) == clean_paths(files_view(files@)),
        r@.len() <= files@.len(),
{
    let ghost fv = files_view(files@);
    let mut out: Vec<TrackedFile> = Vec::new();
    let mut i: usize = 0;
    assert(files_view(out@) =~= clean_paths(fv.take(0)));
    while i < files.len()
        invariant
            i <= files@.len(),
            out@.len() <= i,
            fv == files_view(files@),
            files_view(out@) == clean_paths(fv.take(i as int)),
        decreases files@.len() - i,
    {
        assert(fv.take(i + 1).drop_last() =~= fv.take(i as int));
        assert(fv.take(i + 1).last() == files@[i as int]@);
        if secrets::path_reason(files[i].path.as_str()).is_none() {
            let c = files[i].copied();
            proof {
                lemma_files_push(out@, c);
            }
            out.push(c);
        }
        i = i + 1;
    }
    assert(fv.take(i as int) =~= fv);
    out
}

/// The paths of the files.
pub open spec fn paths_of(files: Seq<FileView>) -> Seq<Seq<char>> {
    Seq::new(files.len(), |i: int| files[i].path)
}

proof fn lemma_sorted_set_len(s: Seq<Seq<char>>)
    ensures
        sorted_set(s).len() <= s.len(),
    decreases s.len(),
{
    if s.len() > 0 {
        lemma_sorted_set_len(s.drop_last());
        lemma_with_text_len(sorted_set(s.drop_last()), s.last());
    }
}

proof fn lemma_with_text_len(s: Seq<Seq<char>>, x: Seq<char>)
    ensures
        with_text(s, x).len() <= s.len() + 1,
    decreases s.len(),
{
    if s.len() > 0 && x != s[0] && !before(x, s[0]) {
        lemma_with_text_len(s.drop_first(), x);
    }
}

/// The model calls that a plan asks for: one for a scope pass, one for each
/// file that is dirty or is to be indexed, one for each stale module and one
/// for each month.
pub open spec fn calls_for(
    needs_scope: bool,
    dirty: Seq<Seq<char>>,
    to_index: Seq<Seq<char>>,
    modules_stale: int,
    months: int,
) -> int {
    (if needs_scope {
        1int
    } else {
        0
    }) + sorted_set(dirty + to_index).len() + modules_stale + months
}

/// What a run would do for a project. `guarded` holds the changed files that
/// are in scope, neither ignored nor binary; `dirty` the paths that an earlier
/// run left.
pub fn plan_project(
    project: &str,
    guarded: &Vec<TrackedFile>,
    changes: &Changes,
    needs_scope: bool,
    dirty: &Vec<String>,
    months: usize,
    modules_stale: usize,
) -> (r: ProjectPlan)
    requires
        1 + dirty@.len() + guarded@.len() + months + modules_stale <= usize::MAX,
    ensures
        r.project@ == project@,
        r.skipped_reason is None,
        r.files_to_index == clean_paths(files_view(guarded@)).len(),
        r.files_to_delete == changes.delete@.len(),
        r.files_moved == changes.moved@.len(),
        r.needs_scope == needs_scope,
        r.months_to_summarize == months,
        r.modules_stale == modules_stale,
        r.calls_needed == calls_for(
            needs_scope,
            texts(dirty@),
            paths_of(clean_paths(files_view(guarded@))),
            modules_stale as int,
            months as int,
        ),
{
    let in_scope = without_secret_paths(guarded);
    let ghost dv = texts(dirty@);
    let ghost pv = paths_of(files_view(in_scope@));
    let mut pending: Vec<String> = Vec::new();
    assert(texts(pending@) =~= sorted_set(Seq::empty()));
    crate::code_index::changes::add_texts(&mut pending, dirty, Ghost(Seq::empty()));
    assert(Seq::<Seq<char>>::empty() + dv =~= dv);
    let mut i: usize = 0;
    assert(dv + pv.take(0) =~= dv);
    while i < in_scope.len()
        invariant
            i <= in_scope@.len(),
            pv == paths_of(files_view(in_scope@)),
            texts(pending@) == sorted_set(dv + pv.take(i as int)),
        decreases in_scope@.len() - i,
    {
        add_text(&mut pending, in_scope[i].path.as_str());
        assert((dv + pv.take(i + 1)).drop_last() =~= dv + pv.take(i as int));
        i = i + 1;
    }
    assert(dv + pv.take(i as int) =~= dv + pv);
    proof {
        lemma_sorted_set_len(dv + pv);
        assert(texts(pending@).len() == pending@.len());
    }
    let scope_calls: usize = if needs_scope {
        1
    } else {
        0
    };
    let calls_needed: usize = scope_calls + pending.len() + modules_stale + months;
    ProjectPlan {
        project: owned(project),
        skipped_reason: None,
        files_to_index: in_scope.len(),
        files_to_delete: changes.delete.len(),
        files_moved: changes.moved.len(),
        needs_scope,
        months_to_summarize: months,
        modules_stale,
        calls_needed,
    }
}

/// What a run would do for a project that is no git repository: nothing.
pub fn plan_not_a_repo(project: &str) -> (r: ProjectPlan)
    ensures
        r.project@ == project@,
        opt_view(r.skipped_reason) == Some("not a git repo"@),
        r.files_to_index == 0 && r.files_to_delete == 0 && r.files_moved == 0 && !r.needs_scope,
        r.months_to_summarize == 0 && r.modules_stale == 0 && r.calls_needed == 0,
{
    ProjectPlan {
        project: owned(project),
        skipped_reason: Some(owned("not a git repo")),
        files_to_index: 0,
        files_to_delete: 0,
        files_moved: 0,
        needs_scope: false,
        months_to_summarize: 0,
        modules_stale: 0,
        calls_needed: 0,
    }
}

/// What a history run would do: one call for each month.
pub fn plan_history(project: &str, months: usize) -> (r: ProjectPlan)
    ensures
        r.project@ == project@,
        r.skipped_reason is None,
        r.files_to_index == 0 && r.files_to_delete == 0 && r.files_moved == 0 && !r.needs_scope && r.modules_stale == 0,
        r.months_to_summarize == months && r.calls_needed == months,
{
    ProjectPlan {
        project: owned(project),
        skipped_reason: None,
        files_to_index: 0,
        files_to_delete: 0,
        files_moved: 0,
        needs_scope: false,
        months_to_summarize: months,
        modules_stale: 0,
        calls_needed: months,
    }
}

/// Whether a stale summary is that of a module which the run would regenerate:
/// under a prefix, never the repository's own.
pub open spec fn is_module_due(path: Seq<char>, prefix: Option<Seq<char>>) -> bool {
    &&& ends_with(path, "/"@)
    &&& match prefix {
        None => true,
        Some(p) => {
            let bare = trim_end_of(p, '/', '/');
            path != "/"@ && (trim_end_of(path, '/', '/') == bare || starts_with(path, bare + "/"@))
        },
    }
}

/// How many of the stale summaries are those of modules that are due.
pub open spec fn modules_due(paths: Seq<Seq<char>>, prefix: Option<Seq<char>>) -> int
    decreases paths.len(),
{
    if paths.len() == 0 {
        0
    } else {
        modules_due(paths.drop_last(), prefix) + (if is_module_due(paths.last(), prefix) {
            1int
        } else {
            0
        })
    }
}

/// How many of the stale summaries are those of modules that are due.
pub fn stale_module_count(paths: &Vec<String>, path_prefix: Option<&str>) -> (r: usize)
    ensures
        r == modules_due(texts(paths@), opt_str_view(path_prefix)),
{
    let ghost pv = texts(paths@);
    let ghost prefix = opt_str_view(path_prefix);
    let mut n: usize = 0;
    let mut i: usize = 0;
    while i < paths.len()
        invariant
            i <= paths@.len(),
            n <= i,
            pv == texts(paths@),
            prefix == opt_str_view(path_prefix),
            n == modules_due(pv.take(i as int), prefix),
        decreases paths@.len() - i,
    {
        assert(pv.take(i + 1).drop_last() =~= pv.take(i as int));
        let pc = chars_of(paths[i].as_str());
        let mut due: bool = has_suffix(pc.as_slice(), "/");
        if let Some(raw) = path_prefix {
            let rc = chars_of(raw);
            let bare = trimmed_end_of(rc.as_slice(), '/', '/');
            let mut under: Vec<char> = crate::text::copy_of(bare);
            push_text(&mut under, "/");
            let mine = same(trimmed_end_of(pc.as_slice(), '/', '/'), bare);
            let below: bool = under.len() <= pc.len() && same(
                crate::text::head(pc.as_slice(), under.len()),
                under.as_slice(),
            );
            due = due && !crate::text::is_text(pc.as_slice(), "/") && (mine || below);
        }
        if due {
            n = n + 1;
        }
        i = i + 1;
    }
    assert(pv.take(i as int) =~= pv);
    n
}

// --- the order of the projects ---

/// A project with the number of its dirty files.
pub open spec fn backlogs_view(v: Seq<(usize, ProjectRow)>) -> Seq<(int, ProjectView)> {
    Seq::new(v.len(), |i: int| (v[i].0 as int, v[i].1@))
}

/// `s` with `x` behind everything that has no larger backlog.
pub open spec fn place_project(s: Seq<(int, ProjectView)>, x: (int, ProjectView)) -> Seq<(int, ProjectView)>
    decreases s.len(),
{
    if s.len() > 0 && s.last().0 > x.0 {
        place_project(s.drop_last(), x).push(s.last())
    } else {
        s.push(x)
    }
}

/// The projects by ascending backlog; those with the same keep their order.
pub open spec fn by_backlog(s: Seq<(int, ProjectView)>) -> Seq<(int, ProjectView)>
    decreases s.len(),
{
    if s.len() == 0 {
        Seq::empty()
    } else {
        place_project(by_backlog(s.drop_last()), s.last())
    }
}

/// The backlogs ascend.
pub open spec fn backlogs_ascend(s: Seq<(int, ProjectView)>) -> bool {
    forall|i: int, j: int| 0 <= i <= j < s.len() ==> (#[trigger] s[i]).0 <= (#[trigger] s[j]).0
}

proof fn lemma_place_project(s: Seq<(int, ProjectView)>, x: (int, ProjectView), k: int)
    requires
        0 <= k <= s.len(),
        forall|j: int| k <= j < s.len() ==> (#[trigger] s[j]).0 > x.0,
        k > 0 ==> s[k - 1].0 <= x.0,
    ensures
        place_project(s, x) == s.insert(k, x),
    decreases s.len(),
{
    if s.len() > 0 && s.last().0 > x.0 {
        let d = s.drop_last();
        assert(k < s.len());
        assert forall|j: int| k <= j < d.len() implies (#[trigger] d[j]).0 > x.0 by {
            assert(d[j] == s[j]);
        }
        lemma_place_project(d, x, k);
        assert(d.insert(k, x).push(s.last()) =~= s.insert(k, x));
    } else {
        assert(k == s.len()) by {
            if k < s.len() {
                assert(s[s.len() - 1].0 > x.0);
            }
        }
        assert(s.push(x) =~= s.insert(k, x));
    }
}

/// The order of the projects has ascending backlogs and the same projects.
pub proof fn law_smallest_backlog_first(s: Seq<(int, ProjectView)>)
    ensures
        backlogs_ascend(by_backlog(s)),
        by_backlog(s).to_multiset() == s.to_multiset(),
    decreases s.len(),
{
    broadcast use vstd::seq_lib::group_to_multiset_ensures;

    if s.len() > 0 {
        let d = s.drop_last();
        law_smallest_backlog_first(d);
        let x = s.last();
        let q = by_backlog(d);
        let k = lemma_place_index(q, x, q.len() as int);
        lemma_place_project(q, x, k);
        let r = q.insert(k, x);
        assert forall|i: int, j: int| 0 <= i <= j < r.len() implies (#[trigger] r[i]).0 <= (#[trigger] r[j]).0 by {
            let i0 = if i < k { i } else { i - 1 };
            let j0 = if j < k { j } else { j - 1 };
            if i != k && j != k {
                assert(q[i0].0 <= q[j0].0);
            } else if i == k && j != k {
                assert(q[j0].0 > x.0);
            } else if j == k && i != k {
                assert(q[i0].0 <= q[k - 1].0);
            }
        }
        assert(s =~= d.push(x));
    }
}

/// Where `x` belongs among the first `n` projects.
proof fn lemma_place_index(q: Seq<(int, ProjectView)>, x: (int, ProjectView), n: int) -> (k: int)
    requires
        0 <= n <= q.len(),
        forall|j: int| n <= j < q.len() ==> (#[trigger] q[j]).0 > x.0,
    ensures
        0 <= k <= q.len(),
        forall|j: int| k <= j < q.len() ==> (#[trigger] q[j]).0 > x.0,
        k > 0 ==> q[k - 1].0 <= x.0,
    decreases n,
{
    if n > 0 && q[n - 1].0 > x.0 {
        lemma_place_index(q, x, n - 1)
    } else {
        n
    }
}

/// Puts the projects that a run can take into the order in which it takes
/// them: the smallest backlog first, so that one large project cannot starve
/// the others.
pub fn order_runnable(runnable: &Vec<(usize, ProjectRow)>) -> (r: Vec<(usize, ProjectRow)>)
    ensures
        backlogs_view(r@) == by_backlog(backlogs_view(runnable@)),
{
    let ghost rv = backlogs_view(runnable@);
    let mut out: Vec<(usize, ProjectRow)> = Vec::new();
    let mut i: usize = 0;
    assert(backlogs_view(out@) =~= by_backlog(rv.take(0)));
    while i < runnable.len()
        invariant
            i <= runnable@.len(),
            rv == backlogs_view(runnable@),
            backlogs_view(out@) == by_backlog(rv.take(i as int)),
        decreases runnable@.len() - i,
    {
        assert(rv.take(i + 1).drop_last() =~= rv.take(i as int));
        let ghost q = backlogs_view(out@);
        let backlog: usize = runnable[i].0;
        let mut k: usize = out.len();
        while k > 0 && out[k - 1].0 > backlog
            invariant
                k <= out@.len(),
                q == backlogs_view(out@),
                forall|j: int| k <= j < q.len() ==> (#[trigger] q[j]).0 > backlog as int,
            decreases k,
        {
            k = k - 1;
        }
        let item = (backlog, runnable[i].1.copied());
        proof {
            lemma_place_project(q, (backlog as int, runnable@[i as int].1@), k as int);
        }
        out.insert(k, item);
        assert(backlogs_view(out@) =~= q.insert(k as int, (backlog as int, runnable@[i as int].1@)));
        i = i + 1;
    }
    assert(rv.take(i as int) =~= rv);
    out
}

// --- the run as a whole ---

/// What a run came to.
#[derive(Debug, Clone)]
pub struct IndexReport {
    pub projects: Vec<ProjectOutcome>,
    pub calls_used: usize,
    pub budget: usize,
    pub budget_reached: bool,
    pub calls_failed: usize,
    pub stopped_on_failures: bool,
    pub last_error: Option<String>,
    pub embedder_up: bool,
    pub backfill_embedded: usize,
    pub backfill_summaries_embedded: usize,
}

/// The project whose turn it is; none once the budget is spent, whatever is left
/// of the queue.
pub fn next_project<'a>(budget: &Budget, queue: &'a Vec<(usize, ProjectRow)>, turn: usize) -> (r: Option<&'a ProjectRow>)
    ensures
        r is Some <==> budget@.has_remaining() && turn < queue@.len(),
        r is Some ==> *(r->0) == queue@[turn as int].1,
{
    if budget.remaining() && turn < queue.len() {
        Some(&queue[turn].1)
    } else {
        None
    }
}

/// Takes the result of one project's run. An error is recorded and the run
/// goes on with the next project, but a run over a prefix fails with it.
pub fn record_result(
    outcomes: &mut Vec<ProjectOutcome>,
    project: &str,
    result: Result<ProjectOutcome, KbError>,
    path_prefix: Option<&str>,
) -> (r: Result<(), KbError>)
    ensures
        r is Err <==> result is Err && path_prefix is Some,
        r is Err ==> r->Err_0 == result->Err_0 && final(outcomes)@ == old(outcomes)@,
        r is Ok ==> final(outcomes)@.len() == old(outcomes)@.len() + 1 && final(outcomes)@.drop_last() == old(outcomes)@,
        result is Ok ==> final(outcomes)@.last() == result->Ok_0,
        result is Err && r is Ok ==> ({
            let o = final(outcomes)@.last();
            o.project@ == project@ && o.skipped_reason is None && opt_view(o.error) == Some(result->Err_0@) && o.counts()
                == no_counts()
        }),
{
    let ghost before = outcomes@;
    match result {
        Ok(outcome) => {
            outcomes.push(outcome);
            assert(outcomes@.drop_last() =~= before);
            Ok(())
        },
        Err(e) => {
            if path_prefix.is_some() {
                return Err(e);
            }
            let message = e.message();
            outcomes.push(ProjectOutcome::failed(project, message.as_str()));
            assert(outcomes@.drop_last() =~= before);
            Ok(())
        },
    }
}

/// The projects whose missing embeddings a run makes up for: its own where it
/// was asked for one project, else every project's.
pub fn backfill_scope(opts: &IndexOptions, project_ids: &Vec<i64>) -> (r: Option<Vec<i64>>)
    ensures
        r is Some <==> opts.project is Some,
        r is Some ==> (r->0)@ == project_ids@,
{
    if opts.project.is_none() {
        return None;
    }
    let mut ids: Vec<i64> = Vec::new();
    let mut i: usize = 0;
    while i < project_ids.len()
        invariant
            i <= project_ids@.len(),
            ids@ == project_ids@.take(i as int),
        decreases project_ids@.len() - i,
    {
        ids.push(project_ids[i]);
        i = i + 1;
        assert(project_ids@.take(i as int) =~= project_ids@.take(i - 1).push(project_ids@[i - 1]));
    }
    assert(project_ids@.take(i as int) =~= project_ids@);
    Some(ids)
}

/// The project whose missing summary embeddings a run makes up for.
pub fn summary_backfill_scope(opts: &IndexOptions, project_ids: &Vec<i64>) -> (r: Option<i64>)
    ensures
        r == if opts.project is Some && project_ids@.len() > 0 {
            Some(project_ids@[0])
        } else {
            None::<i64>
        },
{
    if opts.project.is_some() && project_ids.len() > 0 {
        Some(project_ids[0])
    } else {
        None
    }
}

/// What the run came to, once every project and the backfills are done.
pub fn index_report(
    projects: Vec<ProjectOutcome>,
    budget: &Budget,
    opts: &IndexOptions,
    embedder_up: bool,
    backfill_embedded: usize,
    backfill_summaries_embedded: usize,
) -> (r: IndexReport)
    ensures
        r.projects == projects,
        r.calls_used == budget@.used,
        r.budget == opts.budget,
        r.budget_reached == (budget@.used >= opts.budget),
        r.calls_failed == budget@.failed,
        r.stopped_on_failures == budget@.is_tripped(),
        opt_view(r.last_error) == budget@.last_error,
        r.embedder_up == embedder_up,
        r.backfill_embedded == backfill_embedded,
        r.backfill_summaries_embedded == backfill_summaries_embedded,
{
    IndexReport {
        projects,
        calls_used: budget.used(),
        budget: opts.budget,
        budget_reached: budget.used() >= opts.budget,
        calls_failed: budget.failed(),
        stopped_on_failures: budget.tripped(),
        last_error: budget.last_error(),
        embedder_up,
        backfill_embedded,
        backfill_summaries_embedded,
    }
}

// --- one file at a time ---

/// What becomes of a changed file that is in scope.
#[derive(Debug, Clone, Copy)]
pub enum Admission {
    /// It is recorded as skipped, for this reason.
    Skip(&'static str),
    /// It is chunked; it has so many lines.
    Chunk(usize),
}

/// Decides on a changed file before anything of it is chunked, stored or sent.
pub fn admit_file(path: &str, text: &str) -> (r: Admission)
    ensures
        r is Skip <==> secrets::secret_label(path@, text@) is Some,
        r matches Admission::Skip(reason) ==> Some(reason@) == secrets::secret_label(path@, text@),
        r matches Admission::Chunk(n) ==> n == lines(text@).len(),
{
    match secrets::reason(path, text) {
        Some(reason) => Admission::Skip(reason),
        None => {
            let tc = chars_of(text);
            let ls = lines_of(tc.as_slice());
            assert(views(ls@).len() == ls@.len());
            Admission::Chunk(ls.len())
        },
    }
}

/// What a dirty file's turn begins with.
#[derive(Debug, Clone)]
pub enum HeaderStep {
    /// No call: these writes settle it.
    Settled(Vec<Write>),
    /// The header call, with this prompt.
    Ask(String),
}

/// What settles a dirty file that has no chunks.
pub open spec fn unchunked_writes(path: Seq<char>) -> Seq<WriteView> {
    seq![WriteView::SetStatus(path, "indexed"@)]
}

/// What a dirty file's turn begins with, as the value that a contract speaks of.
pub ghost enum HeaderView {
    Settled(Seq<WriteView>),
    Ask(Seq<char>),
}

impl View for HeaderStep {
    type V = HeaderView;

    open spec fn view(&self) -> HeaderView {
        match *self {
            HeaderStep::Settled(ws) => HeaderView::Settled(writes_view(ws@)),
            HeaderStep::Ask(prompt) => HeaderView::Ask(prompt@),
        }
    }
}

/// What a dirty file's turn begins with: one without chunks is done, one that is
/// flagged as holding a secret is skipped, any other gets a header call.
pub open spec fn header_step_of(
    project: Seq<char>,
    path: Seq<char>,
    blob: Seq<char>,
    file_text: Seq<char>,
    chunks: Seq<ChunkMeta>,
    had_summary: bool,
) -> HeaderView {
    if chunks.len() == 0 {
        HeaderView::Settled(unchunked_writes(path))
    } else {
        match secrets::secret_label(path, file_text) {
            Some(label) => HeaderView::Settled(skip_writes(project, path, blob, label, had_summary)),
            None => HeaderView::Ask(header_prompt(project, path, file_text, chunks)),
        }
    }
}

/// Takes up a dirty file. One without chunks is done; one that is flagged as
/// holding a secret is skipped; any other gets a header call.
pub fn finalize_dirty_file(
    project: &str,
    path: &str,
    blob: &str,
    file_text: &str,
    chunks: &Vec<ChunkMeta>,
    had_summary: bool,
) -> (r: HeaderStep)
    ensures
        r@ == header_step_of(project@, path@, blob@, file_text@, chunks@, had_summary),
{
    if chunks.len() == 0 {
        let mut ws: Vec<Write> = Vec::new();
        ws.push(Write::SetStatus(owned(path), owned("indexed")));
        assert(writes_view(ws@) =~= unchunked_writes(path@));
        return HeaderStep::Settled(ws);
    }
    match secrets::reason(path, file_text) {
        Some(reason) => HeaderStep::Settled(mark_skipped(project, path, blob, reason, had_summary)),
        None => HeaderStep::Ask(build_header_prompt(project, path, file_text, chunks)),
    }
}

// --- the summary pass ---

/// `s` with `x` behind every row whose path does not come after its own.
pub open spec fn place_row(s: Seq<RowView>, x: RowView) -> Seq<RowView>
    decreases s.len(),
{
    if s.len() > 0 && before(x.path, s.last().path) {
        place_row(s.drop_last(), x).push(s.last())
    } else {
        s.push(x)
    }
}

/// The rows that the prefix concerns, ordered by path.
pub open spec fn candidates(rows: Seq<RowView>, prefix: Option<Seq<char>>) -> Seq<RowView>
    decreases rows.len(),
{
    if rows.len() == 0 {
        Seq::empty()
    } else {
        let rest = candidates(rows.drop_last(), prefix);
        if in_prefix(prefix, rows.last().path) {
            place_row(rest, rows.last())
        } else {
            rest
        }
    }
}

proof fn lemma_place_row(s: Seq<RowView>, x: RowView, k: int)
    requires
        0 <= k <= s.len(),
        forall|j: int| k <= j < s.len() ==> before(x.path, (#[trigger] s[j]).path),
        k > 0 ==> !before(x.path, s[k - 1].path),
    ensures
        place_row(s, x) == s.insert(k, x),
    decreases s.len(),
{
    if s.len() > 0 && before(x.path, s.last().path) {
        let d = s.drop_last();
        assert(k < s.len());
        assert forall|j: int| k <= j < d.len() implies before(x.path, (#[trigger] d[j]).path) by {
            assert(d[j] == s[j]);
        }
        lemma_place_row(d, x, k);
        assert(d.insert(k, x).push(s.last()) =~= s.insert(k, x));
    } else {
        assert(k == s.len()) by {
            if k < s.len() {
                assert(before(x.path, s[s.len() - 1].path));
            }
        }
        assert(s.push(x) =~= s.insert(k, x));
    }
}

/// The rows that the prefix concerns, in order.
pub open spec fn rows_in_prefix(rows: Seq<RowView>, prefix: Option<Seq<char>>) -> Seq<RowView>
    decreases rows.len(),
{
    if rows.len() == 0 {
        Seq::empty()
    } else if in_prefix(prefix, rows.last().path) {
        rows_in_prefix(rows.drop_last(), prefix).push(rows.last())
    } else {
        rows_in_prefix(rows.drop_last(), prefix)
    }
}

/// The dirty files that this run finishes, in order: a run under a prefix
/// leaves those elsewhere to a full one.
pub fn dirty_queue(dirty: &Vec<CodeFileRow>, path_prefix: Option<&str>) -> (r: Vec<CodeFileRow>)
    ensures
        rows_view(r@) == rows_in_prefix(rows_view(dirty@), opt_str_view(path_prefix)),
{
    let ghost dv = rows_view(dirty@);
    let ghost prefix = opt_str_view(path_prefix);
    let mut out: Vec<CodeFileRow> = Vec::new();
    let mut i: usize = 0;
    assert(rows_view(out@) =~= rows_in_prefix(dv.take(0), prefix));
    while i < dirty.len()
        invariant
            i <= dirty@.len(),
            dv == rows_view(dirty@),
            prefix == opt_str_view(path_prefix),
            rows_view(out@) == rows_in_prefix(dv.take(i as int), prefix),
        decreases dirty@.len() - i,
    {
        assert(dv.take(i + 1).drop_last() =~= dv.take(i as int));
        if prefix_matcher(path_prefix, dirty[i].path.as_str()) {
            let row = dirty[i].copied();
            let ghost done = out@;
            out.push(row);
            assert(rows_view(out@) =~= rows_view(done).push(row@));
        }
        i = i + 1;
    }
    assert(dv.take(i as int) =~= dv);
    out
}

/// The dirty file whose turn it is; none once the budget is spent, whatever is
/// left of the queue.
pub fn next_dirty_file<'a>(budget: &Budget, queue: &'a Vec<CodeFileRow>, turn: usize) -> (r: Option<&'a CodeFileRow>)
    ensures
        r is Some <==> budget@.has_remaining() && turn < queue@.len(),
        r is Some ==> *(r->0) == queue@[turn as int],
{
    if budget.remaining() && turn < queue.len() {
        Some(&queue[turn])
    } else {
        None
    }
}

/// The files that may need a summary call, given those indexed and those that
/// fell back to windows: what the prefix concerns, ordered by path.
pub fn summary_candidates(indexed: &Vec<CodeFileRow>, fallback: &Vec<CodeFileRow>, path_prefix: Option<&str>) -> (r: Vec<
    CodeFileRow,
>)
    requires
        indexed@.len() + fallback@.len() <= usize::MAX,
    ensures
        rows_view(r@) == candidates(rows_view(indexed@) + rows_view(fallback@), opt_str_view(path_prefix)),
{
    let ghost all = rows_view(indexed@) + rows_view(fallback@);
    let ghost prefix = opt_str_view(path_prefix);
    let total: usize = indexed.len() + fallback.len();
    let mut out: Vec<CodeFileRow> = Vec::new();
    let mut i: usize = 0;
    assert(rows_view(out@) =~= candidates(all.take(0), prefix));
    while i < total
        invariant
            i <= total,
            total == indexed@.len() + fallback@.len(),
            all == rows_view(indexed@) + rows_view(fallback@),
            prefix == opt_str_view(path_prefix),
            rows_view(out@) == candidates(all.take(i as int), prefix),
        decreases total - i,
    {
        assert(all.take(i + 1).drop_last() =~= all.take(i as int));
        let row: &CodeFileRow = if i < indexed.len() {
            &indexed[i]
        } else {
            &fallback[i - indexed.len()]
        };
        assert(all.take(i + 1).last() == row@);
        if prefix_matcher(path_prefix, row.path.as_str()) {
            let ghost q = rows_view(out@);
            let mut k: usize = out.len();
            while k > 0 && text_before(row.path.as_str(), out[k - 1].path.as_str())
                invariant
                    k <= out@.len(),
                    q == rows_view(out@),
                    forall|j: int| k <= j < q.len() ==> before(row.path@, (#[trigger] q[j]).path),
                decreases k,
            {
                k = k - 1;
            }
            proof {
                lemma_place_row(q, row@, k as int);
            }
            out.insert(k, row.copied());
            assert(rows_view(out@) =~= q.insert(k as int, row@));
        }
        i = i + 1;
    }
    assert(all.take(i as int) =~= all);
    out
}

/// Whether the paths of the rows ascend.
pub open spec fn paths_ascend(s: Seq<RowView>) -> bool {
    forall|i: int, j: int| 0 <= i < j < s.len() ==> !before((#[trigger] s[j]).path, (#[trigger] s[i]).path)
}

proof fn lemma_place_row_ascends(s: Seq<RowView>, x: RowView, bound: Seq<char>)
    requires
        paths_ascend(s),
    ensures
        paths_ascend(place_row(s, x)),
        place_row(s, x).to_multiset() == s.to_multiset().insert(x),
        !before(bound, x.path) && (forall|j: int| 0 <= j < s.len() ==> !before(bound, (#[trigger] s[j]).path)) ==> forall|
            j: int,
        |
            0 <= j < place_row(s, x).len() ==> !before(bound, (#[trigger] place_row(s, x)[j]).path),
    decreases s.len(),
{
    broadcast use vstd::seq_lib::group_to_multiset_ensures;

    if s.len() > 0 && before(x.path, s.last().path) {
        let d = s.drop_last();
        let t = place_row(d, x);
        assert(paths_ascend(d));
        lemma_place_row_ascends(d, x, bound);
        lemma_before_asymmetric(x.path, s.last().path);
        lemma_place_row_ascends(d, x, s.last().path);
        assert(d.push(s.last()) =~= s);
        assert(place_row(s, x) == t.push(s.last()));
        assert(t.push(s.last()).to_multiset() =~= s.to_multiset().insert(x));
    } else if s.len() > 0 {
        let last = s.last();
        assert forall|i: int| 0 <= i < s.len() implies !before(x.path, (#[trigger] s[i]).path) by {
            if i < s.len() - 1 {
                assert(!before(s[s.len() - 1].path, s[i].path));
                if before(x.path, s[i].path) {
                    lemma_before_total(last.path, s[i].path);
                    if before(s[i].path, last.path) {
                        lemma_before_transitive(x.path, s[i].path, last.path);
                    }
                }
            }
        }
    }
}

/// The summary pass takes its files in the order of their paths, and takes all
/// that the prefix concerns, each once.
pub proof fn law_candidates_come_by_path(rows: Seq<RowView>, prefix: Option<Seq<char>>)
    ensures
        paths_ascend(candidates(rows, prefix)),
        candidates(rows, prefix).to_multiset() == rows_in_prefix(rows, prefix).to_multiset(),
    decreases rows.len(),
{
    broadcast use vstd::seq_lib::group_to_multiset_ensures;

    if rows.len() > 0 {
        law_candidates_come_by_path(rows.drop_last(), prefix);
        if in_prefix(prefix, rows.last().path) {
            lemma_place_row_ascends(candidates(rows.drop_last(), prefix), rows.last(), Seq::empty());
        }
    }
}

/// What the summary pass does with a file.
#[derive(Debug, Clone, Copy, PartialEq, Eq, Structural)]
pub enum SummaryStep {
    /// The budget is spent: the pass ends.
    Stop,
    /// The file needs no call, or has had its share of them.
    Pass,
    /// The file needs a call.
    Ask,
}

/// What the summary pass does with a file, given the blob that its summary is
/// of, if it has one.
pub open spec fn summary_step_of(budget: BudgetView, row: RowView, digest: Option<Seq<char>>) -> SummaryStep {
    if !budget.has_remaining() {
        SummaryStep::Stop
    } else if digest == Some(row.blob) || row.summary_attempts >= SUMMARY_GIVE_UP_ATTEMPTS {
        SummaryStep::Pass
    } else {
        SummaryStep::Ask
    }
}

/// What the summary pass does with a file, given the blob that its summary is
/// of, if it has one.
pub fn run_summary_pass(budget: &Budget, row: &CodeFileRow, digest: Option<&str>) -> (r: SummaryStep)
    ensures
        r == summary_step_of(budget@, row@, opt_str_view(digest)),
{
    if !budget.remaining() {
        return SummaryStep::Stop;
    }
    let fresh: bool = match digest {
        Some(d) => same_text(d, row.blob.as_str()),
        None => false,
    };
    if fresh || row.summary_attempts >= SUMMARY_GIVE_UP_ATTEMPTS {
        SummaryStep::Pass
    } else {
        SummaryStep::Ask
    }
}

/// The prompt of a file's summary call; none for a file that is flagged as
/// holding a secret.
pub fn summary_call(project: &str, path: &str, file_text: &str) -> (r: Option<String>)
    ensures
        opt_view(r) == if secrets::secret_label(path@, file_text@) is Some {
            None
        } else {
            Some(file_block(project@, path@, file_text@) + SUMMARY_PROMPT_TAIL@)
        },
{
    if secrets::reason(path, file_text).is_some() {
        None
    } else {
        Some(build_summary_prompt(project, path, file_text))
    }
}

/// A file that was given up on gets no call until its blob changes and its
/// count of attempts starts anew; a file whose summary is of its blob gets
/// none at all.
pub proof fn law_no_call_for_a_settled_file(budget: BudgetView, row: RowView, digest: Option<Seq<char>>)
    requires
        row.summary_attempts >= SUMMARY_GIVE_UP_ATTEMPTS || digest == Some(row.blob),
    ensures
        summary_step_of(budget, row, digest) != SummaryStep::Ask,
{
}

// --- backfills ---

/// A chunk without an embedding.
#[derive(Debug, Clone)]
pub struct Unembedded {
    pub id: i64,
    pub project_id: i64,
    pub header: Option<String>,
    pub text: String,
}

/// Whether the chunk's project is among those to make up for.
pub open spec fn is_wanted(u: Unembedded, ids: Option<Seq<i64>>) -> bool {
    match ids {
        Some(v) => v.contains(u.project_id),
        None => true,
    }
}

/// What the chunks are embedded by: those of the wanted projects, in order, at
/// most `limit` of them.
pub open spec fn embed_queue(rows: Seq<Unembedded>, ids: Option<Seq<i64>>, limit: int, cap: int) -> Seq<(i64, Seq<char>)>
    decreases rows.len(),
{
    if rows.len() == 0 {
        Seq::empty()
    } else {
        let rest = embed_queue(rows.drop_last(), ids, limit, cap);
        let u = rows.last();
        if rest.len() < limit && is_wanted(u, ids) {
            rest.push((u.id, embedding_text(opt_view(u.header), u.text@, cap)))
        } else {
            rest
        }
    }
}

pub open spec fn queue_view(v: Seq<(i64, String)>) -> Seq<(i64, Seq<char>)> {
    Seq::new(v.len(), |i: int| (v[i].0, v[i].1@))
}

/// The chunks whose embedding is made up for, with what each is embedded by.
/// They are embedded one after the other until the first failure.
pub fn backfill_embeddings(rows: &Vec<Unembedded>, project_ids: Option<&Vec<i64>>, limit: usize, cap: usize) -> (r: Vec<
    (i64, String),
>)
    ensures
        queue_view(r@) == embed_queue(
            rows@,
            match project_ids {
                Some(v) => Some(v@),
                None => None,
            },
            limit as int,
            cap as int,
        ),
        r@.len() <= limit,
{
    let ghost ids = match project_ids {
        Some(v) => Some(v@),
        None => None,
    };
    let mut out: Vec<(i64, String)> = Vec::new();
    let mut i: usize = 0;
    assert(queue_view(out@) =~= embed_queue(rows@.take(0), ids, limit as int, cap as int));
    while i < rows.len()
        invariant
            i <= rows@.len(),
            ids == match project_ids {
                Some(v) => Some(v@),
                None => None,
            },
            out@.len() <= limit,
            queue_view(out@) == embed_queue(rows@.take(i as int), ids, limit as int, cap as int),
        decreases rows@.len() - i,
    {
        assert(rows@.take(i + 1).drop_last() =~= rows@.take(i as int));
        let u: &Unembedded = &rows[i];
        let wanted: bool = match project_ids {
            Some(v) => {
                let mut found: bool = false;
                let mut j: usize = 0;
                while j < v.len()
                    invariant
                        j <= v@.len(),
                        found == exists|k: int| 0 <= k < j && v@[k] == u.project_id,
                    decreases v@.len() - j,
                {
                    if v[j] == u.project_id {
                        found = true;
                    }
                    j = j + 1;
                }
                found
            },
            None => true,
        };
        assert(wanted == is_wanted(*u, ids));
        if out.len() < limit && wanted {
            let header: Option<&str> = match &u.header {
                Some(h) => Some(h.as_str()),
                None => None,
            };
            let input = embedding_input(header, u.text.as_str(), cap);
            let ghost done = out@;
            out.push((u.id, input));
            assert(queue_view(out@) =~= queue_view(done).push((u.id, input@)));
        }
        i = i + 1;
    }
    assert(rows@.take(i as int) =~= rows@);
    out
}

/// What the symbol backfill does with a file.
#[derive(Debug, Clone, Copy, PartialEq, Eq, Structural)]
pub enum BackfillStep {
    /// The run's share is spent.
    Stop,
    /// The prefix does not concern the file.
    Pass,
    /// The file is read and its symbols are extracted.
    Extract,
}

/// What the symbol backfill does with a file, with `remaining` files left to
/// extract in this run.
pub fn backfill_symbols(remaining: usize, path_prefix: Option<&str>, path: &str) -> (r: BackfillStep)
    ensures
        r == if remaining == 0 {
            BackfillStep::Stop
        } else if in_prefix(opt_str_view(path_prefix), path@) {
            BackfillStep::Extract
        } else {
            BackfillStep::Pass
        },
{
    if remaining == 0 {
        BackfillStep::Stop
    } else if prefix_matcher(path_prefix, path) {
        BackfillStep::Extract
    } else {
        BackfillStep::Pass
    }
}

// --- status ---

/// How a project's index stands, in counts.
#[derive(Debug, Clone)]
pub struct ProjectStatus {
    pub project: String,
    pub skipped_reason: Option<String>,
    pub head: Option<String>,
    pub code_indexed_head: Option<String>,
    pub indexed: usize,
    pub fallback: usize,
    pub dirty: usize,
    pub skipped: usize,
    pub skip_reasons: Vec<(String, usize)>,
    pub chunks: usize,
    pub embedded: usize,
    pub summaries_given_up: usize,
    pub symbols: usize,
    pub edges: usize,
    pub edges_resolved: usize,
}

/// The sum of the counts.
pub open spec fn total(v: Seq<(String, usize)>) -> int
    decreases v.len(),
{
    if v.len() == 0 {
        0
    } else {
        total(v.drop_last()) + v.last().1
    }
}

proof fn lemma_total_grows(v: Seq<(String, usize)>, n: int)
    requires
        0 <= n <= v.len(),
    ensures
        0 <= total(v.take(n)) <= total(v),
    decreases v.len() - n,
{
    if n == v.len() {
        assert(v.take(n) =~= v);
        lemma_total_nonneg(v);
    } else {
        lemma_total_grows(v, n + 1);
        assert(v.take(n + 1).drop_last() =~= v.take(n));
        lemma_total_nonneg(v.take(n));
    }
}

proof fn lemma_total_nonneg(v: Seq<(String, usize)>)
    ensures
        0 <= total(v),
    decreases v.len(),
{
    if v.len() > 0 {
        lemma_total_nonneg(v.drop_last());
    }
}

/// How many files are skipped, given how many are for each reason.
pub fn skipped_total(skip_reasons: &Vec<(String, usize)>) -> (r: usize)
    requires
        total(skip_reasons@) <= usize::MAX,
    ensures
        r == total(skip_reasons@),
{
    let mut sum: usize = 0;
    let mut i: usize = 0;
    while i < skip_reasons.len()
        invariant
            i <= skip_reasons@.len(),
            total(skip_reasons@) <= usize::MAX,
            sum == total(skip_reasons@.take(i as int)),
        decreases skip_reasons@.len() - i,
    {
        proof {
            lemma_total_grows(skip_reasons@, i + 1);
            assert(skip_reasons@.take(i + 1).drop_last() =~= skip_reasons@.take(i as int));
        }
        sum = sum + skip_reasons[i].1;
        i = i + 1;
    }
    assert(skip_reasons@.take(i as int) =~= skip_reasons@);
    sum
}

} // verus!
