use kb::code_index::changes::{
    cleanup_recategorized_files, compute_changes, detects_renames, filter_in_scope, sweep_secret_rows, top_level_dirs,
};
use kb::code_index::job::{
    admit_file, backfill_embeddings, backfill_scope, backfill_symbols, dirty_queue, finalize_dirty_file, index_report, next_dirty_file, next_project,
    order_runnable,
    plan_history, plan_project, record_result, run_summary_pass, selected_projects, stale_module_count, summary_call,
    summary_candidates, without_secret_paths, Admission, BackfillStep, Budget, HeaderStep, IndexOptions, IndexReport,
    ProjectPlan, ProjectRow, SummaryStep, Unembedded, EMBED_BACKFILL_PER_RUN, MAX_CONSECUTIVE_FAILURES,
    SYMBOL_BACKFILL_PER_RUN,
};
use kb::code_index::modules::{
    module_reply_writes, next_module, run_module_summary_pass, try_regenerate_one, ModuleStep, ModuleSummary, SummaryRow,
};
use kb::code_index::reply::ChunkMeta;
use kb::code_index::rows::{CodeFileRow, DirStat, ScopeRow, TrackedFile};
use kb::code_index::scope::{guard_files, needs_scope, prune_stale_scope_rows, run_scope_pass};
use kb::code_index::stages::{Event, ProjectOutcome, ProjectRun, Stage};
use kb::code_index::writes::{
    change_writes, header_reply_writes, mark_skipped, recategorized_writes, record_unparseable_summary,
    summary_reply_writes, Write,
};
use kb::error::KbError;

const CHUNK_CHARS: usize = 6_000;

/// What the language model answers, and what it was asked.
#[derive(Default)]
struct Llm {
    fail_paths: Vec<String>,
    fail_scope: bool,
    fail_all: bool,
    /// The combined call gives headers alone.
    no_combined_summary: bool,
    /// The summary call gives nothing that can be read.
    no_summary: bool,
    /// Any call, but for one about history where that is allowed, is a failure
    /// of the test.
    silent: bool,
    history_allowed: bool,
    header_calls: Vec<String>,
    summary_calls: Vec<String>,
    prompts: Vec<String>,
}

fn failing(paths: &[&str]) -> Llm {
    Llm { fail_paths: strings(paths), ..Default::default() }
}

fn silent() -> Llm {
    Llm { silent: true, ..Default::default() }
}

fn silent_but_for_history() -> Llm {
    Llm { silent: true, history_allowed: true, ..Default::default() }
}

fn headers_only() -> Llm {
    Llm { no_combined_summary: true, ..Default::default() }
}

fn never_summarizes() -> Llm {
    Llm { no_combined_summary: true, no_summary: true, ..Default::default() }
}

impl Llm {
    fn history(&mut self) -> Result<String, String> {
        assert!(!self.silent || self.history_allowed, "no call was expected");
        if self.fail_all {
            return Err("offline".to_string());
        }
        Ok("fake history summary".to_string())
    }

    fn call(&mut self, prompt: &str) -> Result<String, String> {
        assert!(!self.silent, "no call was expected: {}", prompt);
        self.prompts.push(prompt.to_string());
        if self.fail_all {
            return Err("offline".to_string());
        }
        if let Some(dir) = prompt.lines().find_map(|l| l.strip_prefix("Module: ")) {
            return Ok(format!("fake module summary for {}", dir));
        }
        let path = match prompt.lines().find_map(|l| l.strip_prefix("File: ")) {
            Some(p) => p.to_string(),
            None => {
                return if self.fail_scope { Err("simulated scope failure".to_string()) } else { Ok(String::new()) };
            }
        };
        if prompt.contains("\nChunks:\n") {
            self.header_calls.push(path.clone());
            if self.fail_paths.contains(&path) {
                return Err("simulated llm failure".to_string());
            }
            let mut out = String::new();
            for rest in prompt.lines().filter_map(|l| l.strip_prefix('#')) {
                if let Some((num, _)) = rest.split_once(' ') {
                    if !num.is_empty() && num.chars().all(|c| c.is_ascii_digit()) {
                        out.push_str(&format!("#{}: header for chunk {}\n", num, num));
                    }
                }
            }
            if !self.no_combined_summary {
                out.push_str(&format!("SUMMARY: fake summary for {}\n", path));
            }
            Ok(out)
        } else {
            self.summary_calls.push(path.clone());
            if self.no_summary {
                Ok("nothing useful to say here".to_string())
            } else {
                Ok(format!("SUMMARY: fallback summary for {}\n", path))
            }
        }
    }
}

#[derive(Clone, Copy, PartialEq)]
enum Embedder {
    Works,
    PingOnly,
    Down,
}

#[derive(Clone, Debug, PartialEq)]
struct FileRow {
    path: String,
    blob: String,
    lang: String,
    status: String,
    attempts: i64,
    refs_blob: Option<String>,
}

struct Chunk {
    id: i64,
    path: String,
    kind: String,
    text: String,
    header: Option<String>,
    embedded: bool,
}

#[derive(Clone)]
struct Summary {
    row: SummaryRow,
    level: String,
}

/// One project: its repository, and a store in memory that carries out what
/// the library decides.
#[derive(Default)]
struct Bench {
    work: Vec<(String, String)>,
    tree: Vec<(String, String)>,
    commits: usize,
    renames: Vec<(String, String)>,
    head: Option<usize>,
    rewritten: bool,
    no_repo: bool,
    files: Vec<FileRow>,
    chunks: Vec<Chunk>,
    next_chunk: i64,
    scopes: Vec<ScopeRow>,
    summaries: Vec<Summary>,
    memories: Vec<(String, String)>,
    symbols: Vec<(String, String)>,
    history: Option<usize>,
}

fn strings(v: &[&str]) -> Vec<String> {
    v.iter().map(|s| s.to_string()).collect()
}

fn names_in(text: &str) -> Vec<String> {
    text.split("fn ").skip(1).filter_map(|rest| rest.split('(').next()).map(|s| s.to_string()).collect()
}

impl Bench {
    fn with(files: &[(&str, &str)]) -> Bench {
        let mut b = Bench::default();
        for (p, t) in files {
            b.write(p, t);
        }
        b.commit();
        b
    }

    fn write(&mut self, path: &str, text: &str) {
        self.work.retain(|f| f.0 != path);
        self.work.push((path.to_string(), text.to_string()));
        self.work.sort();
    }

    fn rm(&mut self, path: &str) {
        self.work.retain(|f| f.0 != path);
    }

    fn mv(&mut self, from: &str, to: &str) {
        let text = self.work.iter().find(|f| f.0 == from).unwrap().1.clone();
        self.rm(from);
        self.write(to, &text);
        self.renames.push((from.to_string(), to.to_string()));
    }

    fn commit(&mut self) {
        self.tree = self.work.clone();
        self.commits += 1;
    }

    fn scope(&mut self, dir: &str, category: &str) {
        self.put_scope(dir, category, "user");
    }

    fn put_scope(&mut self, dir: &str, category: &str, source: &str) {
        self.scopes.retain(|s| s.dir != dir);
        self.scopes.push(ScopeRow {
            project_id: 1,
            dir: dir.to_string(),
            category: category.to_string(),
            source: source.to_string(),
            decided_at: "t".to_string(),
        });
    }

    fn row(&self, path: &str) -> Option<&FileRow> {
        self.files.iter().find(|f| f.path == path)
    }

    fn summary(&self, path: &str) -> Option<&SummaryRow> {
        self.summaries.iter().find(|s| s.row.path == path).map(|s| &s.row)
    }

    fn put_summary(&mut self, path: &str, level: &str, text: &str, digest: &str, stale: bool) {
        self.summaries.retain(|s| s.row.path != path);
        self.summaries.push(Summary {
            row: SummaryRow {
                path: path.to_string(),
                text: text.to_string(),
                source_digest: digest.to_string(),
                stale,
            },
            level: level.to_string(),
        });
    }

    fn with_status(&self, status: &str) -> Vec<CodeFileRow> {
        self.rows().into_iter().filter(|r| r.status == status).collect()
    }

    fn rows(&self) -> Vec<CodeFileRow> {
        self.files
            .iter()
            .map(|f| CodeFileRow {
                path: f.path.clone(),
                blob: f.blob.clone(),
                status: f.status.clone(),
                summary_attempts: f.attempts,
            })
            .collect()
    }

    fn tree_files(&self) -> Vec<TrackedFile> {
        self.tree.iter().map(|(p, t)| TrackedFile { path: p.clone(), blob: blob_of(t) }).collect()
    }

    fn text_of(&self, path: &str) -> String {
        self.tree.iter().find(|f| f.0 == path).unwrap().1.clone()
    }

    fn metas(&self, path: &str) -> Vec<ChunkMeta> {
        self.chunks
            .iter()
            .filter(|c| c.path == path)
            .map(|c| ChunkMeta {
                id: c.id,
                symbol: None,
                kind: c.kind.clone(),
                start_line: 1,
                end_line: 1,
                text: c.text.clone(),
            })
            .collect()
    }

    fn embedded(&self) -> usize {
        self.chunks.iter().filter(|c| c.embedded).count()
    }

    fn upsert(&mut self, path: &str, blob: &str, lang: &str, status: &str) {
        let old = self.row(path).cloned();
        self.files.retain(|f| f.path != path);
        let kept = match &old {
            Some(f) if f.blob == blob => f.attempts,
            _ => 0,
        };
        self.files.push(FileRow {
            path: path.to_string(),
            blob: blob.to_string(),
            lang: lang.to_string(),
            status: status.to_string(),
            attempts: kept,
            refs_blob: old.and_then(|f| f.refs_blob),
        });
        self.files.sort_by(|a, b| a.path.cmp(&b.path));
    }

    fn put_chunks(&mut self, path: &str, chunks: &[(&str, String)]) {
        self.chunks.retain(|c| c.path != path);
        for (kind, text) in chunks {
            self.next_chunk += 1;
            self.chunks.push(Chunk {
                id: self.next_chunk,
                path: path.to_string(),
                kind: kind.to_string(),
                text: text.clone(),
                header: None,
                embedded: false,
            });
        }
    }

    fn put_symbols(&mut self, path: &str, blob: &str, text: &str) {
        self.symbols.retain(|s| s.0 != path);
        for n in names_in(text) {
            self.symbols.push((path.to_string(), n));
        }
        for f in self.files.iter_mut() {
            if f.path == path {
                f.refs_blob = Some(blob.to_string());
            }
        }
    }

    fn forget_symbols(&mut self, path: &str) {
        self.symbols.retain(|s| s.0 != path);
        for f in self.files.iter_mut().filter(|f| f.path == path) {
            f.refs_blob = None;
        }
    }

    fn perform(&mut self, ws: Vec<Write>, embedder: Embedder) {
        for w in ws {
            match w {
                Write::DeleteFile(p) => {
                    self.files.retain(|f| f.path != p);
                    self.chunks.retain(|c| c.path != p);
                }
                Write::DeleteSymbols(p) => self.symbols.retain(|s| s.0 != p),
                Write::DeleteSummary(p) => self.summaries.retain(|s| s.row.path != p),
                Write::MarkStale(ps) => {
                    for s in self.summaries.iter_mut() {
                        if ps.contains(&s.row.path) {
                            s.row.stale = true;
                        }
                    }
                }
                Write::MoveRows(from, to) => {
                    for f in self.files.iter_mut().filter(|f| f.path == from) {
                        f.path = to.clone();
                    }
                    for c in self.chunks.iter_mut().filter(|c| c.path == from) {
                        c.path = to.clone();
                    }
                    for s in self.summaries.iter_mut().filter(|s| s.row.path == from) {
                        s.row.path = to.clone();
                    }
                }
                Write::MoveSymbols(from, to) => {
                    for s in self.symbols.iter_mut().filter(|s| s.0 == from) {
                        s.0 = to.clone();
                    }
                }
                Write::ClearChunks(p) => self.chunks.retain(|c| c.path != p),
                Write::PutSkipped(p, blob, reason) => self.upsert(&p, &blob, &reason, "skipped"),
                Write::EmptySummary(p) => {
                    for s in self.summaries.iter_mut().filter(|s| s.row.path == p) {
                        s.row.text = String::new();
                        s.row.stale = true;
                    }
                }
                Write::InvalidateSource(source) => self.memories.retain(|m| m.0 != source),
                Write::InvalidateMemory(_) => {}
                Write::PutMemoryOnce(source, content) => {
                    if !self.memories.iter().any(|m| m.0 == source) {
                        self.memories.push((source, content));
                    }
                }
                Write::SetStatus(p, status) => {
                    for f in self.files.iter_mut().filter(|f| f.path == p) {
                        f.status = status.clone();
                    }
                }
                Write::SetHeader(id, h) => {
                    for c in self.chunks.iter_mut().filter(|c| c.id == id) {
                        c.header = Some(h.clone());
                    }
                }
                Write::EmbedChunk(id, _) => {
                    for c in self.chunks.iter_mut().filter(|c| c.id == id) {
                        c.embedded = embedder == Embedder::Works;
                    }
                }
                Write::PutSummary(p, text, blob) => self.put_summary(&p, "file", &text, &blob, false),
                Write::EmbedSummary(_, _) => {}
                Write::CountAttempt(p) => {
                    let mut attempts = 0;
                    for f in self.files.iter_mut().filter(|f| f.path == p) {
                        f.attempts += 1;
                        attempts = f.attempts;
                    }
                    let more = record_unparseable_summary(&p, attempts, self.summary(&p).is_some());
                    self.perform(more, embedder);
                }
                Write::SeedPlaceholder(p, level) => self.put_summary(&p, &level, "", "", true),
                Write::ClearStale(p, digest) => {
                    for s in self.summaries.iter_mut().filter(|s| s.row.path == p) {
                        s.row.stale = false;
                        s.row.source_digest = digest.clone();
                    }
                }
                Write::PutModuleSummary(p, level, text, digest) => self.put_summary(&p, &level, &text, &digest, false),
                Write::PutMirror(_, source, content) => {
                    self.memories.retain(|m| m.0 != source);
                    self.memories.push((source, content));
                }
            }
        }
    }

    fn skip(&mut self, path: &str, blob: &str, reason: &str) {
        let ws = mark_skipped("proj", path, blob, reason, self.summary(path).is_some());
        self.perform(ws, Embedder::Down);
    }

    fn renames_since(&self) -> Vec<(String, String)> {
        let indexed = self.head.map(|h| h.to_string());
        if detects_renames(indexed.as_deref(), &self.commits.to_string(), !self.rewritten) {
            self.renames.clone()
        } else {
            vec![]
        }
    }

    fn ask(&mut self, llm: &mut Llm, budget: &mut Budget, prompt: &str) -> Option<String> {
        let result = llm.call(prompt);
        budget.record(result.as_ref().err().map(|e| e.as_str()));
        result.ok()
    }

    fn index(
        &mut self,
        llm: &mut Llm,
        embedder: Embedder,
        budget: &mut Budget,
        opts: &IndexOptions,
    ) -> Result<ProjectOutcome, KbError> {
        let prefix = opts.path_prefix.as_deref();
        let tree = self.tree_files();
        let mut symbols_left = SYMBOL_BACKFILL_PER_RUN;
        let mut run =
            ProjectRun::start(embedder != Embedder::Down, opts.history_only, prefix.is_some(), self.head.is_none(), budget);
        let mut to_chunk: Vec<TrackedFile> = vec![];
        loop {
            let event = match run.stage {
                Stage::CheckScope => {
                    for dir in prune_stale_scope_rows(&self.scopes, &tree) {
                        self.scopes.retain(|s| s.dir != dir);
                    }
                    Event::ScopeChecked { needed: needs_scope(&self.scopes, &top_level_dirs(&tree)) }
                }
                Stage::RunScope => {
                    let reply = llm.call("You are scoping a code repository").ok();
                    let stats: Vec<DirStat> = top_level_dirs(&tree)
                        .into_iter()
                        .map(|dir| DirStat {
                            dir,
                            files: 1,
                            lines: 1,
                            commits: 1,
                            authors: vec![],
                            first_added: String::new(),
                        })
                        .collect();
                    let pass = run_scope_pass(&stats, reply.as_deref(), &self.scopes, "proj");
                    for (dir, category) in pass.rows {
                        if !self.scopes.iter().any(|s| s.dir == dir && s.source == "user") {
                            self.put_scope(&dir, category.as_str(), "llm");
                        }
                    }
                    Event::ScopeRan { failed: pass.failed }
                }
                Stage::ApplyChanges => {
                    let changes = compute_changes(&self.rows(), &tree, &self.renames_since(), prefix)?;
                    self.perform(change_writes(&changes), embedder);
                    let paths: Vec<String> = self.files.iter().map(|f| f.path.clone()).collect();
                    let moved_out = cleanup_recategorized_files(&paths, &self.scopes, prefix);
                    self.perform(recategorized_writes("proj", moved_out), embedder);
                    let texts: Vec<(String, String)> =
                        self.chunks.iter().map(|c| (c.path.clone(), c.text.clone())).collect();
                    let hits = sweep_secret_rows(&self.rows(), &texts, prefix);
                    for h in &hits {
                        self.skip(&h.path, &h.blob, h.reason);
                    }
                    to_chunk = guard_files(&filter_in_scope(&self.scopes, &changes.add_or_modify), &vec![], &vec![]);
                    Event::ChangesApplied { deleted: changes.delete.len(), moved: changes.moved.len(), swept: hits.len() }
                }
                Stage::ChunkFiles => {
                    let (mut chunked, mut secret) = (0, 0);
                    for f in to_chunk.clone() {
                        let text = self.text_of(&f.path);
                        match admit_file(&f.path, &text) {
                            Admission::Skip(reason) => {
                                self.skip(&f.path, &f.blob, reason);
                                secret += 1;
                            }
                            Admission::Chunk(_) => {
                                let kind = if f.path.ends_with(".zig") { "window" } else { "function" };
                                self.put_chunks(&f.path, &[(kind, text.trim_end().to_string())]);
                                let lang = if f.path.ends_with(".md") { "Markdown" } else { "Code" };
                                self.upsert(&f.path, &f.blob, lang, "dirty");
                                self.put_symbols(&f.path, &f.blob, &text);
                                chunked += 1;
                            }
                        }
                    }
                    Event::FilesChunked { chunked, secret }
                }
                Stage::BackfillSymbols => {
                    let missing: Vec<FileRow> = self
                        .files
                        .iter()
                        .filter(|f| f.status == "indexed" && f.lang != "Markdown" && f.refs_blob.as_ref() != Some(&f.blob))
                        .cloned()
                        .collect();
                    let mut done = 0;
                    for f in missing {
                        match backfill_symbols(symbols_left, prefix, &f.path) {
                            BackfillStep::Stop => break,
                            BackfillStep::Pass => continue,
                            BackfillStep::Extract => {
                                let text = self.text_of(&f.path);
                                self.put_symbols(&f.path, &f.blob, &text);
                                symbols_left -= 1;
                                done += 1;
                            }
                        }
                    }
                    Event::SymbolsBackfilled { files: done }
                }
                Stage::ResolveAllEdges => Event::EdgesResolved { examined: self.symbols.len() },
                Stage::ResolveNewEdges => Event::EdgesResolved { examined: 0 },
                Stage::FinalizeFiles => {
                    let mut attempted = 0;
                    let queue = dirty_queue(&self.with_status("dirty"), prefix);
                    let mut turn = 0;
                    while let Some(f) = next_dirty_file(budget, &queue, turn) {
                        turn += 1;
                        let chunks = self.metas(&f.path);
                        let text = self.text_of(&f.path);
                        let had = self.summary(&f.path).is_some();
                        match finalize_dirty_file("proj", &f.path, &f.blob, &text, &chunks, had) {
                            HeaderStep::Settled(ws) => self.perform(ws, embedder),
                            HeaderStep::Ask(prompt) => {
                                attempted += 1;
                                if let Some(reply) = self.ask(llm, budget, &prompt) {
                                    let ws = header_reply_writes(&f.path, &f.blob, &chunks, &reply, CHUNK_CHARS);
                                    self.perform(ws, embedder);
                                }
                            }
                        }
                    }
                    Event::FilesFinalized { attempted }
                }
                Stage::SummarizeFiles => {
                    let mut attempted = 0;
                    let queue = summary_candidates(&self.with_status("indexed"), &self.with_status("fallback"), prefix);
                    for f in queue {
                        let digest = self.summary(&f.path).map(|s| s.source_digest.clone());
                        match run_summary_pass(budget, &f, digest.as_deref()) {
                            SummaryStep::Stop => break,
                            SummaryStep::Pass => continue,
                            SummaryStep::Ask => {
                                if let Some(prompt) = summary_call("proj", &f.path, &self.text_of(&f.path)) {
                                    attempted += 1;
                                    if let Some(reply) = self.ask(llm, budget, &prompt) {
                                        self.perform(summary_reply_writes(&f.path, &f.blob, &reply), embedder);
                                    }
                                }
                            }
                        }
                    }
                    Event::FilesSummarized { attempted }
                }
                Stage::SummarizeModules => {
                    let mut attempted = 0;
                    let mut rows = self.with_status("indexed");
                    rows.extend(self.with_status("fallback"));
                    let existing: Vec<ModuleSummary> = self
                        .summaries
                        .iter()
                        .filter(|s| s.level != "file")
                        .map(|s| ModuleSummary { path: s.row.path.clone(), level: s.level.clone(), memory_id: None })
                        .collect();
                    let pass = run_module_summary_pass("proj", &existing, &rows, prefix);
                    self.perform(pass.writes, embedder);
                    let mut turn = 0;
                    while let Some(task) = next_module(budget, &pass.tasks, turn) {
                        turn += 1;
                        let own = self.summary(&task.dir).cloned();
                        let all: Vec<SummaryRow> = self.summaries.iter().map(|s| s.row.clone()).collect();
                        match try_regenerate_one("proj", task, own.as_ref(), &all, &rows, false) {
                            ModuleStep::Settled(ws) => self.perform(ws, embedder),
                            ModuleStep::Ask(prompt, digest) => {
                                attempted += 1;
                                if let Some(reply) = self.ask(llm, budget, &prompt) {
                                    self.perform(module_reply_writes("proj", task, &digest, &reply), embedder);
                                }
                            }
                        }
                    }
                    Event::ModulesSummarized { attempted, pruned: pass.pruned }
                }
                Stage::SummarizeMonths => {
                    let mut attempted = 0;
                    if self.history != Some(self.commits) && budget.remaining() {
                        attempted = 1;
                        let result = llm.history();
                        budget.record(result.as_ref().err().map(|e| e.as_str()));
                        if result.is_ok() {
                            self.history = Some(self.commits);
                        }
                    }
                    Event::MonthsSummarized { attempted }
                }
                Stage::CountDirty => Event::DirtyCounted { files: self.with_status("dirty").len() },
                Stage::AdvanceHead => {
                    self.head = Some(self.commits);
                    Event::HeadAdvanced
                }
                Stage::CountTotals => Event::TotalsCounted { symbols: self.symbols.len(), edges: 0 },
                Stage::Finish(_) => return Ok(ProjectOutcome::of_run("proj", &run).unwrap()),
            };
            run.advance(event, budget);
        }
    }

    fn run_with(&mut self, llm: &mut Llm, embedder: Embedder, opts: &IndexOptions) -> Result<IndexReport, KbError> {
        let all = vec![ProjectRow { id: 1, name: "proj".to_string(), root_path: "/repo".to_string() }];
        let mut budget = Budget::new(opts.budget);
        let selected = selected_projects(&all, opts)?;
        let mut runnable: Vec<(usize, ProjectRow)> = vec![];
        let mut outcomes: Vec<ProjectOutcome> = vec![];
        for p in selected {
            if self.no_repo {
                outcomes.push(ProjectOutcome::not_a_repo(&p.name));
            } else {
                runnable.push((self.with_status("dirty").len(), p));
            }
        }
        let queue = order_runnable(&runnable);
        let ids: Vec<i64> = queue.iter().map(|(_, p)| p.id).collect();
        let mut turn = 0;
        while let Some(p) = next_project(&budget, &queue, turn) {
            turn += 1;
            let result = self.index(llm, embedder, &mut budget, opts);
            record_result(&mut outcomes, &p.name, result, opts.path_prefix.as_deref())?;
        }
        let mut backfilled = 0;
        if embedder != Embedder::Down {
            let rows: Vec<Unembedded> = self
                .chunks
                .iter()
                .filter(|c| !c.embedded && self.row(&c.path).map_or(false, |f| f.status != "dirty"))
                .map(|c| Unembedded { id: c.id, project_id: 1, header: c.header.clone(), text: c.text.clone() })
                .collect();
            let scope = backfill_scope(opts, &ids);
            for (id, _) in backfill_embeddings(&rows, scope.as_ref(), EMBED_BACKFILL_PER_RUN, CHUNK_CHARS) {
                if embedder != Embedder::Works {
                    break;
                }
                self.perform(vec![Write::EmbedChunk(id, String::new())], embedder);
                backfilled += 1;
            }
        }
        Ok(index_report(outcomes, &budget, opts, embedder != Embedder::Down, backfilled, 0))
    }

    fn run(&mut self, llm: &mut Llm) -> IndexReport {
        self.run_with(llm, Embedder::Works, &IndexOptions::new()).unwrap()
    }

    fn plan(&self, history_only: bool) -> ProjectPlan {
        let months = if self.history == Some(self.commits) { 0 } else { 1 };
        if history_only {
            return plan_history("proj", months);
        }
        let tree = self.tree_files();
        let changes = compute_changes(&self.rows(), &tree, &self.renames_since(), None).unwrap();
        let guarded = guard_files(&filter_in_scope(&self.scopes, &changes.add_or_modify), &vec![], &vec![]);
        let stale: Vec<String> = self.summaries.iter().filter(|s| s.row.stale).map(|s| s.row.path.clone()).collect();
        let dirty: Vec<String> = self.with_status("dirty").into_iter().map(|r| r.path).collect();
        let needed = needs_scope(&self.scopes, &top_level_dirs(&tree));
        plan_project("proj", &guarded, &changes, needed, &dirty, months, stale_module_count(&stale, None))
    }
}

fn blob_of(text: &str) -> String {
    format!("blob:{}", text)
}

fn with_prefix(prefix: &str) -> IndexOptions {
    let mut o = IndexOptions::new();
    o.project = Some("proj".to_string());
    o.path_prefix = Some(prefix.to_string());
    o
}

fn with_budget(budget: usize) -> IndexOptions {
    let mut o = IndexOptions::new();
    o.budget = budget;
    o
}

fn two_files() -> Bench {
    Bench::with(&[("src/a.rs", "fn a() {}\n"), ("src/b.rs", "fn b() {}\n")])
}

fn github_token() -> String {
    format!("{}{}", "gh".to_string() + "p_", "Q".repeat(36))
}

#[test]
fn first_run_indexes_all_in_scope_files_and_advances_head() {
    let mut b = two_files();
    let report = b.run(&mut Llm::default());
    assert!(!report.budget_reached);
    assert_eq!(report.projects.len(), 1);
    let outcome = &report.projects[0];
    assert_eq!(outcome.files_chunked, 2, "{:?}", outcome);
    assert!(outcome.head_advanced);
    assert_eq!(b.head, Some(b.commits));
    for path in ["src/a.rs", "src/b.rs"] {
        assert_eq!(b.row(path).unwrap().status, "indexed", "{}", path);
    }
    assert!(b.chunks.len() >= 2);
    assert_eq!(b.chunks.len(), b.embedded(), "every chunk should have been embedded");
}

#[test]
fn second_run_with_no_changes_makes_zero_calls() {
    let mut b = Bench::with(&[("src/a.rs", "fn a() {}\n")]);
    b.run(&mut Llm::default());
    let report2 = b.run(&mut silent());
    assert_eq!(report2.calls_used, 0);
    assert_eq!(report2.projects[0].files_chunked, 0);
    assert!(!report2.projects[0].scope_ran);
}

#[test]
fn modifying_one_file_only_rechunks_and_reheads_that_file() {
    let mut b = two_files();
    b.run(&mut Llm::default());
    let before = b.row("src/b.rs").cloned();
    b.write("src/a.rs", "fn a() { let x = 1; }\n");
    b.commit();
    let mut llm2 = Llm::default();
    let outcome = b.run(&mut llm2).projects.remove(0);
    assert_eq!(outcome.files_chunked, 1, "{:?}", outcome);
    assert_eq!(llm2.header_calls, vec!["src/a.rs".to_string()]);
    assert!(!outcome.scope_ran, "top-level directory set didn't move, no re-scope needed");
    assert_eq!(before, b.row("src/b.rs").cloned(), "b.rs must be untouched by a.rs's change");
}

#[test]
fn deleting_a_file_removes_its_rows() {
    let mut b = two_files();
    b.run(&mut Llm::default());
    b.rm("src/b.rs");
    b.commit();
    let outcome = b.run(&mut Llm::default()).projects.remove(0);
    assert_eq!(outcome.files_deleted, 1);
    assert!(b.row("src/b.rs").is_none());
    assert_eq!(b.metas("src/b.rs").len(), 0);
    assert!(!b.chunks.is_empty(), "a.rs's chunks must still be present");
}

#[test]
fn renaming_a_file_with_unchanged_blob_moves_rows_without_a_header_call() {
    let mut b = two_files();
    b.run(&mut Llm::default());
    let before = b.row("src/a.rs").cloned().unwrap();
    let chunk_id_before = b.metas("src/a.rs")[0].id;
    b.mv("src/a.rs", "src/renamed.rs");
    b.commit();
    let mut llm2 = Llm::default();
    let outcome = b.run(&mut llm2).projects.remove(0);
    assert!(llm2.header_calls.is_empty(), "a pure content-unchanged rename needs no header call");
    assert!(outcome.head_advanced);
    assert!(b.row("src/a.rs").is_none());
    assert_eq!(b.row("src/renamed.rs").unwrap().status, before.status, "status (indexed) survives the rename");
    assert_eq!(b.metas("src/renamed.rs")[0].id, chunk_id_before, "the same chunk row moved, it wasn't replaced");
}

#[test]
fn llm_failure_leaves_file_dirty_head_not_advanced_and_next_run_completes_it() {
    let mut b = two_files();
    let outcome = b.run(&mut failing(&["src/a.rs"])).projects.remove(0);
    assert!(!outcome.head_advanced);
    assert_eq!(b.row("src/a.rs").unwrap().status, "dirty");
    assert_eq!(b.row("src/b.rs").unwrap().status, "indexed");
    assert!(b.head.is_none());
    let mut llm2 = Llm::default();
    let outcome2 = b.run(&mut llm2).projects.remove(0);
    assert!(outcome2.head_advanced);
    assert_eq!(llm2.header_calls, vec!["src/a.rs".to_string()]);
    assert_eq!(b.row("src/a.rs").unwrap().status, "indexed");
}

#[test]
fn failed_header_calls_are_counted_separately_from_attempts() {
    let mut b = two_files();
    let report = b.run(&mut failing(&["src/a.rs"]));
    let outcome = &report.projects[0];
    assert_eq!((outcome.headers_attempted, outcome.headers_failed), (2, 1));
    assert_eq!(report.calls_failed, 1);
    assert_eq!(report.last_error.as_deref(), Some("simulated llm failure"));
    assert!(!report.stopped_on_failures, "one failure among successes must not stop the run");
}

#[test]
fn consecutive_failures_stop_the_run_before_the_budget_is_spent() {
    let names: Vec<String> = (0..MAX_CONSECUTIVE_FAILURES + 3).map(|i| format!("src/f{}.rs", i)).collect();
    let mut b = Bench::default();
    for (i, n) in names.iter().enumerate() {
        b.write(n, &format!("fn f{}() {{}}\n", i));
    }
    b.commit();
    let mut llm = Llm { fail_paths: names.clone(), ..Default::default() };
    let report = b.run(&mut llm);
    assert!(report.stopped_on_failures);
    assert!(!report.budget_reached);
    assert_eq!(llm.header_calls.len(), MAX_CONSECUTIVE_FAILURES, "no call after the breaker trips");
    assert_eq!(report.projects[0].headers_failed, MAX_CONSECUTIVE_FAILURES);
    assert_eq!(report.projects[0].months_summarized, 0, "later stages stop too");
    assert_eq!(b.with_status("dirty").len(), names.len());
}

#[test]
fn path_prefix_run_leaves_dirty_files_outside_the_prefix_alone() {
    let mut b = Bench::with(&[("src/a.rs", "fn a() {}\n"), ("lib/b.rs", "fn b() {}\n")]);
    b.run(&mut failing(&["src/a.rs", "lib/b.rs"]));
    let mut llm = Llm::default();
    b.run_with(&mut llm, Embedder::Works, &with_prefix("src")).unwrap();
    assert_eq!(llm.header_calls, vec!["src/a.rs".to_string()]);
    assert_eq!(b.row("lib/b.rs").unwrap().status, "dirty");
}

#[test]
fn budget_stop_and_resume() {
    let mut b = two_files();
    let report = b.run_with(&mut Llm::default(), Embedder::Works, &with_budget(1)).unwrap();
    assert!(report.budget_reached);
    assert_eq!(report.calls_used, 1);
    assert!(!report.projects[0].head_advanced);
    let mut llm2 = Llm::default();
    let report2 = b.run(&mut llm2);
    assert!(!report2.budget_reached);
    assert!(report2.projects[0].head_advanced);
    assert_eq!(llm2.header_calls.len(), 2);
}

#[test]
fn a_normal_run_reaches_the_history_stage_when_no_path_prefix_is_given() {
    let mut b = Bench::with(&[("src/a.rs", "fn a() {}\n")]);
    let mut o = IndexOptions::new();
    o.project = Some("proj".to_string());
    let outcome = b.run_with(&mut Llm::default(), Embedder::Works, &o).unwrap().projects.remove(0);
    assert!(outcome.months_summarized >= 1, "{:?}", outcome);
}

#[test]
fn path_prefix_matching_zero_tracked_files_is_a_loud_error() {
    let mut b = Bench::with(&[("src/a.rs", "fn a() {}\n")]);
    let err = b.run_with(&mut Llm::default(), Embedder::Works, &with_prefix("does-not-exist")).unwrap_err();
    let msg = err.message();
    assert!(msg.contains("does-not-exist") && msg.contains("no tracked files"), "{}", msg);
}

#[test]
fn path_prefix_matching_tracked_files_with_zero_changes_is_not_an_error() {
    let mut b = Bench::with(&[("src/a.rs", "fn a() {}\n")]);
    b.run_with(&mut Llm::default(), Embedder::Works, &with_prefix("src")).unwrap();
    let report = b.run_with(&mut silent(), Embedder::Works, &with_prefix("src")).unwrap();
    assert_eq!(report.calls_used, 0);
    assert!(!report.projects[0].head_advanced);
}

#[test]
fn dry_run_changes_nothing() {
    let b = two_files();
    let plan = b.plan(false);
    assert_eq!(plan.files_to_index, 2);
    assert!(plan.needs_scope);
    assert_eq!(plan.months_to_summarize, 1, "the one commit month has no history row yet");
    assert_eq!(plan.calls_needed, 1 + 2 + 1);
    assert!(b.scopes.is_empty() && b.files.is_empty() && b.chunks.is_empty());
}

#[test]
fn dry_run_history_only_counts_changed_months_and_normal_dry_run_counts_stale_modules() {
    let mut b = Bench::with(&[("src/a.rs", "fn a() {}\n")]);
    let plan = b.plan(true);
    assert_eq!((plan.months_to_summarize, plan.calls_needed, plan.files_to_index), (1, 1, 0));
    b.run(&mut Llm::default());
    assert_eq!(b.plan(true).months_to_summarize, 0, "the month is summarized and unchanged");
    b.perform(vec![Write::MarkStale(strings(&["src/"]))], Embedder::Works);
    let plan = b.plan(false);
    assert!(b.summary("src/").is_some(), "the first run summarized src/");
    assert_eq!(plan.modules_stale, 1);
    assert_eq!(plan.calls_needed, plan.modules_stale, "nothing else to do");
}

#[test]
fn a_scope_recategorization_to_vendored_deletes_its_files_chunks_on_the_next_run_and_writes_the_memory() {
    let mut b =
        Bench::with(&[("vendor/lib.cpp", "int lib() { return 1; }\n"), ("src/a.cpp", "int a() { return 1; }\n")]);
    b.run(&mut Llm::default());
    assert!(b.row("vendor/lib.cpp").is_some() && b.row("src/a.cpp").is_some());
    assert!(!b.metas("vendor/lib.cpp").is_empty());
    b.scope("vendor", "vendored");
    let report = b.run(&mut Llm::default());
    assert_eq!(report.projects[0].headers_attempted, 0, "no file needs re-chunking");
    assert_eq!(report.projects[0].summaries_attempted, 0, "no file needs re-summarising");
    assert!(b.row("vendor/lib.cpp").is_none(), "the recategorized file's row must be gone");
    assert!(b.metas("vendor/lib.cpp").is_empty(), "and its chunks with it");
    assert!(b.row("src/a.cpp").is_some(), "a file under an untouched directory must be left alone");
    assert!(b.summary("vendor/").is_none(), "vendor/'s module summary is pruned once it has no indexed files left");
    let source = "code-index:proj:vendored:vendor";
    let found: Vec<&(String, String)> = b.memories.iter().filter(|m| m.0 == source).collect();
    assert_eq!(found.len(), 1);
    assert!(found[0].1.contains("vendor"));
    b.run(&mut silent());
    assert_eq!(b.memories.iter().filter(|m| m.0 == source).count(), 1);
}

#[test]
fn a_scope_recategorization_to_generated_deletes_files_without_writing_a_vendored_memory() {
    let mut b = Bench::with(&[("gen/codegen.cpp", "int g() { return 1; }\n")]);
    b.run(&mut Llm::default());
    assert!(b.row("gen/codegen.cpp").is_some());
    b.scope("gen", "generated");
    b.run(&mut silent());
    assert!(b.row("gen/codegen.cpp").is_none());
    assert!(!b.memories.iter().any(|m| m.0.contains("vendored")));
}

#[test]
fn embedder_failure_leaves_embedding_null_but_still_finalizes_the_file() {
    let mut b = Bench::with(&[("src/a.rs", "fn a() {}\n")]);
    let outcome =
        b.run_with(&mut Llm::default(), Embedder::PingOnly, &IndexOptions::new()).unwrap().projects.remove(0);
    assert!(outcome.head_advanced);
    assert_eq!(b.row("src/a.rs").unwrap().status, "indexed");
    assert!(!b.chunks.is_empty());
    assert_eq!(b.embedded(), 0);
}

#[test]
fn missing_embeddings_are_backfilled_on_a_later_run_without_any_llm_call() {
    let mut b = Bench::with(&[("src/a.rs", "fn a() {}\n")]);
    b.run_with(&mut Llm::default(), Embedder::PingOnly, &IndexOptions::new()).unwrap();
    assert_eq!(b.embedded(), 0);
    let report = b.run(&mut silent());
    assert_eq!(report.backfill_embedded, b.chunks.len());
    assert_eq!(b.embedded(), b.chunks.len());
}

#[test]
fn an_unreachable_embedder_skips_header_calls_so_none_are_wasted() {
    let mut b = Bench::with(&[("src/a.rs", "fn a() {}\n")]);
    let mut llm = Llm::default();
    let report = b.run_with(&mut llm, Embedder::Down, &IndexOptions::new()).unwrap();
    assert!(!report.embedder_up && llm.header_calls.is_empty() && !report.projects[0].head_advanced);
    assert_eq!(b.row("src/a.rs").unwrap().status, "dirty");
    let mut llm2 = Llm::default();
    assert!(b.run(&mut llm2).projects[0].head_advanced);
    assert_eq!(llm2.header_calls, vec!["src/a.rs".to_string()]);
}

#[test]
fn three_changed_files_with_budget_one_finish_in_three_runs_and_no_file_is_reheaded_twice() {
    let mut b = Bench::with(&[("src/a.rs", "fn a() {}\n"), ("src/b.rs", "fn b() {}\n"), ("src/c.rs", "fn c() {}\n")]);
    assert!(b.run(&mut Llm::default()).projects[0].head_advanced);
    b.write("src/a.rs", "fn a() { 1; }\n");
    b.write("src/b.rs", "fn b() { 2; }\n");
    b.write("src/c.rs", "fn c() { 3; }\n");
    b.commit();
    let mut llm = Llm::default();
    for _ in 0..3 {
        b.run_with(&mut llm, Embedder::Works, &with_budget(1)).unwrap();
    }
    let mut calls = llm.header_calls.clone();
    calls.sort();
    assert_eq!(calls, vec!["src/a.rs", "src/b.rs", "src/c.rs"], "each file headed exactly once");
    assert_eq!(b.with_status("indexed").len(), 3);
    assert_eq!(b.head, Some(b.commits));
}

#[test]
fn a_branch_switch_sized_change_completes_over_several_budgeted_runs() {
    let mut b = Bench::default();
    for i in 0..12 {
        b.write(&format!("src/f{:02}.rs", i), &format!("fn f{}() {{}}\n", i));
    }
    b.commit();
    b.run(&mut Llm::default());
    for i in 0..10 {
        b.write(&format!("src/f{:02}.rs", i), &format!("fn f{}() {{ let other_branch = {}; }}\n", i, i));
    }
    b.rm("src/f11.rs");
    for i in 0..3 {
        b.write(&format!("src/new{}.rs", i), &format!("fn new{}() {{}}\n", i));
    }
    b.commit();
    let mut llm = Llm::default();
    let mut runs = 0;
    loop {
        runs += 1;
        assert!(runs <= 4, "13 header calls at 4/run must finish within 4 runs");
        if b.run_with(&mut llm, Embedder::Works, &with_budget(4)).unwrap().projects[0].head_advanced {
            break;
        }
    }
    let mut unique = llm.header_calls.clone();
    unique.sort();
    unique.dedup();
    assert_eq!((llm.header_calls.len(), unique.len()), (13, 13), "no file re-headed: {:?}", llm.header_calls);
    assert!(b.row("src/f11.rs").is_none());
    assert_eq!(b.with_status("indexed").len(), 14);
}

#[test]
fn a_staged_but_uncommitted_change_is_invisible_to_the_index() {
    let mut b = Bench::with(&[("src/a.rs", "fn a() {}\n")]);
    b.run(&mut Llm::default());
    b.write("src/a.rs", "fn a() { staged(); }\n");
    let report = b.run(&mut silent());
    assert_eq!(report.calls_used, 0);
    assert_eq!(report.projects[0].files_chunked, 0);
}

#[test]
fn secret_files_are_skipped_never_chunked_never_sent_and_reported_in_status() {
    let token = github_token();
    let pem = format!("{}BEGIN EC PRIVATE KEY{}\nAAAA\n", "-".repeat(5), "-".repeat(5));
    let mut b = Bench::default();
    b.write("src/a.rs", "fn a() {}\n");
    b.write("src/.env", &format!("TOKEN={}\n", token));
    b.write("src/config.rs", &format!("const T: &str = \"{}\";\n", token));
    b.write("src/server.pem", &pem);
    b.write("src/deploy.rs", &pem);
    b.commit();
    let mut llm = Llm::default();
    let report = b.run(&mut llm);
    let o = &report.projects[0];
    assert!(o.head_advanced, "{:?}", o);
    assert_eq!(o.files_skipped_secret, 4, "{:?}", o);
    assert_eq!(llm.header_calls, vec!["src/a.rs".to_string()]);
    for prompt in &llm.prompts {
        assert!(!prompt.contains(&token) && !prompt.contains("PRIVATE KEY"), "a secret reached a prompt");
    }
    for path in ["src/.env", "src/config.rs", "src/server.pem", "src/deploy.rs"] {
        let row = b.row(path).unwrap();
        assert_eq!(row.status, "skipped", "{}", path);
        assert!(row.lang.starts_with("secret-") && !row.lang.contains(&token), "{}: {:?}", path, row.lang);
        assert!(b.metas(path).is_empty(), "{} has chunks", path);
    }
    assert!(!b.chunks.iter().any(|c| c.text.contains(&token)));
    let reasons: Vec<&str> = b.files.iter().filter(|f| f.status == "skipped").map(|f| f.lang.as_str()).collect();
    assert_eq!(reasons.len(), 4);
    assert!(reasons.contains(&"secret-path(.env)") && reasons.contains(&"secret-content(github-token)"), "{:?}", reasons);
    let report2 = b.run(&mut silent());
    assert_eq!(report2.projects[0].files_chunked, 0);
}

#[test]
fn chunks_already_holding_a_secret_are_swept_to_skipped_on_the_next_run() {
    let token = format!("{}{}", "AK".to_string() + "IA", "Z".repeat(16));
    let mut b = Bench::with(&[("src/a.rs", "fn a() {}\n")]);
    b.run(&mut Llm::default());
    b.put_chunks("src/a.rs", &[("window", format!("key={}", token))]);
    b.run(&mut silent());
    assert_eq!(b.row("src/a.rs").unwrap().status, "skipped");
    assert!(b.metas("src/a.rs").is_empty());
}

#[test]
fn a_failed_scope_pass_skips_the_project_instead_of_indexing_with_defaults() {
    let mut b = Bench::with(&[("vendor/lib.c", "int lib(void) { return 1; }\n"), ("src/a.rs", "fn a() {}\n")]);
    let mut llm = Llm { fail_scope: true, ..Default::default() };
    let report = b.run(&mut llm);
    assert!(report.projects[0].skipped_reason.as_deref().unwrap_or("").contains("scope"));
    assert!(llm.header_calls.is_empty());
    assert_eq!(report.calls_used, 1, "the failed scope call still spent budget");
    assert!(b.files.is_empty(), "nothing chunked under a default-product guess");
    assert!(b.run(&mut Llm::default()).projects[0].head_advanced);
}

#[test]
fn recategorizing_a_directory_back_into_scope_indexes_it_without_any_git_change() {
    let mut b = Bench::with(&[("vendor/lib.c", "int lib(void) { return 1; }\n"), ("src/a.rs", "fn a() {}\n")]);
    b.scope("vendor", "vendored");
    b.run(&mut Llm::default());
    assert!(b.row("vendor/lib.c").is_none());
    b.scope("vendor", "product");
    let mut llm = Llm::default();
    b.run(&mut llm);
    assert_eq!(llm.header_calls, vec!["vendor/lib.c".to_string()]);
    assert_eq!(b.row("vendor/lib.c").unwrap().status, "indexed");
}

#[test]
fn a_vanished_top_level_dir_prunes_its_rows_and_does_not_rescope() {
    let mut b = Bench::with(&[("src/a.rs", "fn a() {}\n"), ("old/b.rs", "fn b() {}\n")]);
    b.run(&mut Llm::default());
    b.rm("old/b.rs");
    b.commit();
    let report = b.run(&mut Llm::default());
    assert!(!report.projects[0].scope_ran);
    assert_eq!(report.projects[0].headers_attempted, 0);
    assert_eq!(report.projects[0].summaries_attempted, 0);
    let dirs: Vec<String> = b.scopes.iter().map(|s| s.dir.clone()).collect();
    assert_eq!(dirs, vec!["src".to_string()]);
    assert!(b.summary("old/").is_none(), "old/'s module summary is pruned once its file is gone");
}

#[test]
fn history_only_still_reports_symbols_and_edges_totals() {
    let mut b = Bench::with(&[("src/a.rs", "fn a() { b(); }\nfn b() {}\n")]);
    let mut o = IndexOptions::new();
    o.project = Some("proj".to_string());
    let first = b.run_with(&mut Llm::default(), Embedder::Works, &o).unwrap().projects.remove(0);
    assert!(first.symbols_total > 0);
    o.history_only = true;
    let second = b.run_with(&mut Llm::default(), Embedder::Works, &o).unwrap().projects.remove(0);
    assert_eq!((second.symbols_total, second.edges_total), (first.symbols_total, first.edges_total));
}

#[test]
fn a_combined_call_writes_the_file_summary_and_the_module_stage_regenerates_its_ancestors_the_same_run() {
    let mut b = Bench::with(&[("a/b/c/x.cpp", "int f() { return 1; }\n")]);
    b.run(&mut Llm::default());
    let own = b.summary("a/b/c/x.cpp").unwrap();
    assert!(!own.text.is_empty() && !own.stale);
    assert_eq!(own.source_digest, b.row("a/b/c/x.cpp").unwrap().blob);
    for path in ["a/", "a/b/", "/"] {
        let row = b.summary(path).unwrap();
        assert!(!row.stale && !row.text.is_empty(), "{}", path);
    }
    assert!(b.summary("a/b/c/").is_none(), "depth-3 is never a module");
}

#[test]
fn a_missing_summary_from_the_combined_call_is_finished_by_a_summary_only_call_the_same_run() {
    let mut b = Bench::with(&[("src/a.rs", "fn a() {}\n")]);
    let mut llm = headers_only();
    let outcome = b.run(&mut llm).projects.remove(0);
    assert!(outcome.head_advanced);
    assert_eq!(outcome.summaries_attempted, 1);
    assert_eq!(llm.header_calls, vec!["src/a.rs".to_string()]);
    assert_eq!(llm.summary_calls, vec!["src/a.rs".to_string()]);
    assert_eq!(b.summary("src/a.rs").unwrap().text, "fallback summary for src/a.rs");
    assert_eq!(b.run(&mut silent()).calls_used, 0);
}

#[test]
fn files_indexed_before_the_summary_feature_existed_get_a_summary_only_call() {
    let mut b = Bench::with(&[("src/a.rs", "fn a() {}\n")]);
    b.scope("src", "product");
    b.put_chunks("src/a.rs", &[("function", "fn a() {}".to_string())]);
    b.upsert("src/a.rs", &blob_of("fn a() {}\n"), "Rust", "indexed");
    b.head = Some(b.commits);
    let mut llm = headers_only();
    b.run(&mut llm);
    assert!(llm.header_calls.is_empty(), "the file's blob is unchanged -- no combined call needed");
    assert_eq!(llm.summary_calls, vec!["src/a.rs".to_string()]);
    assert_eq!(b.summary("src/a.rs").unwrap().source_digest, blob_of("fn a() {}\n"));
}

#[test]
fn a_blob_change_that_leaves_the_summary_digest_stale_is_resummarised() {
    let mut b = Bench::with(&[("src/a.rs", "fn a() {}\n")]);
    b.run(&mut headers_only());
    let first_digest = b.summary("src/a.rs").unwrap().source_digest.clone();
    b.write("src/a.rs", "fn a() { changed(); }\n");
    b.commit();
    let mut llm2 = headers_only();
    b.run(&mut llm2);
    assert_eq!(llm2.header_calls, vec!["src/a.rs".to_string()]);
    assert_eq!(llm2.summary_calls, vec!["src/a.rs".to_string()]);
    let second = b.summary("src/a.rs").unwrap();
    assert_ne!(second.source_digest, first_digest);
    assert_eq!(second.source_digest, b.row("src/a.rs").unwrap().blob);
}

#[test]
fn budget_accounts_for_summary_only_calls_too() {
    let mut b = two_files();
    let mut llm1 = headers_only();
    let report = b.run_with(&mut llm1, Embedder::Works, &with_budget(3)).unwrap();
    assert!(report.budget_reached);
    assert_eq!(llm1.summary_calls.len(), 0);
    let mut llm2 = headers_only();
    let report2 = b.run(&mut llm2);
    assert_eq!(report2.calls_used, 5, "two summary-only calls, two module summaries, one history call");
    assert_eq!(llm2.summary_calls.len(), 2);
    assert_eq!(report2.projects[0].modules_attempted, 2);
    assert_eq!(report2.projects[0].months_summarized, 1);
}

#[test]
fn a_file_that_never_produces_a_parseable_summary_stops_being_queued_after_the_give_up_cap() {
    let mut b = Bench::with(&[("src/a.rs", "fn a() {}\n")]);
    let mut llm = never_summarizes();
    let outcome = b.run(&mut llm).projects.remove(0);
    assert!(outcome.head_advanced, "headers still finalize the file even with no summary ever produced");
    assert_eq!((llm.header_calls.len(), llm.summary_calls.len()), (1, 1));
    let row = b.row("src/a.rs").unwrap();
    assert_eq!(row.attempts, 2, "both the combined and the summary-only failures count toward the cap");
    assert_eq!(row.status, "indexed");
    assert!(b.summary("src/a.rs").is_none());
    b.run(&mut llm);
    assert_eq!(llm.summary_calls.len(), 1, "the give-up cap stops further summary-only calls on later runs");
}

#[test]
fn a_blob_change_after_giving_up_resets_the_attempt_count_and_tries_again() {
    let mut b = Bench::with(&[("src/a.rs", "fn a() {}\n")]);
    b.run(&mut never_summarizes());
    assert_eq!(b.row("src/a.rs").unwrap().attempts, 2);
    b.write("src/a.rs", "fn a() { 1 + 1; }\n");
    b.commit();
    b.run(&mut Llm::default());
    assert_eq!(b.row("src/a.rs").unwrap().attempts, 0, "a new blob resets the give-up count");
    assert!(b.summary("src/a.rs").is_some(), "and can succeed again");
}

#[test]
fn giving_up_on_a_changed_file_deletes_its_stale_summary_and_clears_its_module() {
    let mut b = Bench::with(&[("src/a.rs", "fn a() {}\n")]);
    b.run(&mut Llm::default());
    assert!(b.memories.iter().any(|m| m.0 == "code-index:proj:src/"));
    b.write("src/a.rs", "fn a() { 2 + 2; }\n");
    b.commit();
    b.run(&mut never_summarizes());
    assert!(b.summary("src/a.rs").is_none(), "stale file summary deleted at give-up");
    assert_eq!(b.summary("src/").unwrap().text, "", "src/ has no child with text left");
    assert!(!b.memories.iter().any(|m| m.0 == "code-index:proj:src/"), "its mirror is gone too");
}

#[test]
fn secret_skipping_a_previously_summarised_file_clears_its_ancestors_and_their_mirrors_immediately() {
    let mut b = Bench::with(&[("src/sub/a.rs", "fn a() {}\n"), ("src/b.rs", "fn b() {}\n")]);
    b.run(&mut Llm::default());
    for p in ["src/sub/", "src/", "/"] {
        assert!(b.memories.iter().any(|m| m.0 == format!("code-index:proj:{}", p)), "{}", p);
    }
    b.write("src/sub/a.rs", &format!("const T: &str = \"{}\";\n", github_token()));
    b.commit();
    b.run(&mut Llm { fail_all: true, ..Default::default() });
    assert_eq!(b.row("src/sub/a.rs").unwrap().status, "skipped");
    assert!(b.summary("src/sub/").is_none(), "src/sub/ has no indexed file left: pruned");
    for p in ["src/", "/"] {
        let row = b.summary(p).unwrap();
        assert_eq!(row.text, "", "{} placeholder-ized", p);
        assert!(row.stale, "{} will regenerate", p);
    }
    assert!(b.memories.is_empty(), "every mirror is invalidated: {:?}", b.memories);
}

#[test]
fn secret_skipped_files_are_never_summarised() {
    let mut b = Bench::with(&[("src/a.rs", "fn a() {}\n")]);
    b.write("src/.env", &format!("TOKEN={}\n", github_token()));
    b.commit();
    b.run(&mut Llm::default());
    assert!(b.summary("src/.env").is_none());
    assert!(b.summary("src/a.rs").is_some());
}

#[test]
fn deleting_a_file_deletes_its_summary_then_the_module_stage_prunes_or_regenerates_ancestors() {
    let mut b = Bench::with(&[("src/sub/a.rs", "fn a() {}\n"), ("src/b.rs", "fn b() {}\n")]);
    b.run(&mut Llm::default());
    assert!(b.summary("src/sub/a.rs").is_some());
    b.put_summary("src/", "module", "old module summary", "irrelevant-digest", false);
    b.rm("src/sub/a.rs");
    b.commit();
    b.run(&mut Llm::default());
    assert!(b.summary("src/sub/a.rs").is_none(), "the deleted file's own summary must be gone");
    assert!(b.summary("src/sub/").is_none(), "src/sub/ has no indexed files left and is pruned");
    let module = b.summary("src/").unwrap();
    assert!(!module.stale, "src/'s only remaining child is fresh, so it's regenerated immediately");
    assert_ne!(module.text, "old module summary");
}

#[test]
fn renaming_a_file_with_unchanged_blob_moves_its_summary_row_with_no_llm_call() {
    let mut b = Bench::with(&[("src/a.rs", "fn a() {}\n")]);
    b.run(&mut Llm::default());
    let before = b.summary("src/a.rs").cloned().unwrap();
    b.mv("src/a.rs", "src/renamed.rs");
    b.commit();
    b.run(&mut silent_but_for_history());
    assert!(b.summary("src/a.rs").is_none());
    let after = b.summary("src/renamed.rs").unwrap();
    assert_eq!(after.text, before.text);
    assert_eq!(after.source_digest, before.source_digest);
}

#[test]
fn a_cross_directory_rename_stales_both_the_old_and_new_ancestor_module_paths() {
    let mut b = Bench::with(&[("a/x.rs", "fn x() {}\n"), ("a/z.rs", "fn z() {}\n"), ("b/y.rs", "fn y() {}\n")]);
    b.run(&mut Llm::default());
    let x_file_summary = b.summary("a/x.rs").cloned().unwrap();
    let a_before = b.summary("a/").cloned().unwrap();
    let b_before = b.summary("b/").cloned().unwrap();
    b.put_summary("a/", "module", "old a module summary", "irrelevant-digest", false);
    b.put_summary("b/", "module", "old b module summary", "irrelevant-digest", false);
    b.mv("a/x.rs", "b/x.rs");
    b.commit();
    b.run(&mut Llm::default());
    let x_after = b.summary("b/x.rs").unwrap();
    assert!(b.summary("a/x.rs").is_none());
    assert_eq!(x_after.text, x_file_summary.text);
    assert_eq!(x_after.source_digest, x_file_summary.source_digest);
    let (a_after, b_after) = (b.summary("a/").unwrap(), b.summary("b/").unwrap());
    assert!(!a_after.stale && !b_after.stale);
    assert_ne!(a_after.text, "old a module summary");
    assert_ne!(b_after.text, "old b module summary");
    assert_ne!(a_after.source_digest, a_before.source_digest, "a/'s child set changed (lost x.rs)");
    assert_ne!(b_after.source_digest, b_before.source_digest, "b/'s child set changed (gained x.rs)");
}

#[test]
fn a_same_directory_rename_does_not_stale_any_module_path() {
    let mut b = Bench::with(&[("src/a.rs", "fn a() {}\n")]);
    b.run(&mut Llm::default());
    let before = b.summary("src/").cloned().unwrap();
    b.mv("src/a.rs", "src/renamed.rs");
    b.commit();
    b.run(&mut silent_but_for_history());
    let after = b.summary("src/").unwrap();
    assert!(!after.stale);
    assert_eq!(after.text, before.text);
}

#[test]
fn secret_file_yields_no_symbols() {
    let token = format!("{}{}", "AK".to_string() + "IA", "Z".repeat(16));
    let mut b = Bench::default();
    b.write("src/a.rs", &format!("pub fn has_secret() {{ let key = \"{}\"; }}\n", token));
    b.write("src/b.rs", "pub fn clean() {}\n");
    b.commit();
    let report = b.run(&mut Llm::default());
    assert_eq!(report.projects[0].files_skipped_secret, 1, "{:?}", report.projects[0]);
    assert_eq!(b.symbols, vec![("src/b.rs".to_string(), "clean".to_string())]);
}

#[test]
fn backfill_extracts_symbols_for_files_indexed_before_the_symbol_graph_existed_with_no_llm_call() {
    let mut b = Bench::with(&[("src/a.rs", "pub fn a() {}\n")]);
    b.run(&mut Llm::default());
    assert_eq!(b.symbols.len(), 1);
    b.forget_symbols("src/a.rs");
    assert_eq!(b.symbols.len(), 0);
    let outcome = b.run(&mut silent()).projects.remove(0);
    assert_eq!(outcome.symbols_backfilled, 1, "{:?}", outcome);
    assert_eq!(outcome.files_chunked, 0, "the file itself was never re-chunked");
    assert_eq!(b.symbols, vec![("src/a.rs".to_string(), "a".to_string())]);
    assert_eq!(b.run(&mut silent()).projects[0].symbols_backfilled, 0);
}

#[test]
fn backfill_never_touches_markdown_or_fallback_files() {
    let mut b = Bench::with(&[
        ("README.md", "# Title\n\nSome prose.\n"),
        ("src/weird.zig", "this is not a recognised language\n"),
    ]);
    b.run(&mut Llm::default());
    assert_eq!(b.row("src/weird.zig").unwrap().status, "fallback");
    b.forget_symbols("README.md");
    b.forget_symbols("src/weird.zig");
    let outcome = b.run(&mut silent()).projects.remove(0);
    assert_eq!(outcome.symbols_backfilled, 0, "{:?}", outcome);
}

#[test]
fn backfill_respects_path_prefix() {
    let mut b = Bench::with(&[("src/a.rs", "pub fn a() {}\n"), ("lib/b.rs", "pub fn b() {}\n")]);
    b.run(&mut Llm::default());
    b.forget_symbols("src/a.rs");
    b.forget_symbols("lib/b.rs");
    assert_eq!(b.symbols.len(), 0);
    let outcome = b.run_with(&mut silent(), Embedder::Works, &with_prefix("src")).unwrap().projects.remove(0);
    assert_eq!(outcome.symbols_backfilled, 1, "{:?}", outcome);
    assert_eq!(b.symbols, vec![("src/a.rs".to_string(), "a".to_string())]);
}

#[test]
fn a_zero_symbol_file_is_backfilled_exactly_once() {
    let mut b = Bench::with(&[("src/consts.rs", "// only a comment, no definitions\n")]);
    b.run(&mut Llm::default());
    assert_eq!(b.symbols.len(), 0);
    assert_eq!(b.row("src/consts.rs").unwrap().status, "indexed");
    assert!(b.row("src/consts.rs").unwrap().refs_blob.is_some());
    b.forget_symbols("src/consts.rs");
    assert_eq!(b.run(&mut silent()).projects[0].symbols_backfilled, 1);
    assert_eq!(b.run(&mut silent()).projects[0].symbols_backfilled, 0, "backfilled once, never again");
    assert_eq!(b.symbols.len(), 0);
}

#[test]
fn recategorizing_a_directory_out_of_scope_removes_its_symbols() {
    let mut b = Bench::with(&[("vendor/lib.c", "int fn lib(void) { return 1; }\n")]);
    b.run(&mut Llm::default());
    assert!(b.symbols.len() > 0, "vendor/lib.c starts out in scope (default product) and gets symbols");
    b.scope("vendor", "vendored");
    b.run(&mut silent());
    assert_eq!(b.symbols.len(), 0, "recategorized-out files must lose their symbols too");
}

#[test]
fn an_unchanged_second_run_examines_zero_edges() {
    let mut b = two_files();
    let first = b.run(&mut Llm::default()).projects.remove(0);
    assert_eq!(first.edges_examined, 2, "the first run resolves the whole project");
    assert_eq!(b.run(&mut silent()).projects[0].edges_examined, 0);
}

#[test]
fn only_the_paths_of_secrets_are_left_out_of_a_plan() {
    let files = vec![
        TrackedFile { path: "a.rs".to_string(), blob: "1".to_string() },
        TrackedFile { path: "id_rsa".to_string(), blob: "2".to_string() },
    ];
    assert_eq!(without_secret_paths(&files), vec![files[0].clone()]);
}

#[test]
fn a_prev_head_that_is_not_a_commit_falls_back_to_blob_compare() {
    let mut b = two_files();
    b.run(&mut Llm::default());
    b.rewritten = true;
    b.head = Some(999);
    b.write("src/a.rs", "fn a() { changed(); }\n");
    b.commit();
    let mut llm = Llm::default();
    let report = b.run(&mut llm);
    let o = &report.projects[0];
    assert!(o.error.is_none(), "{:?}", o);
    assert!(o.head_advanced);
    assert_eq!(llm.header_calls, vec!["src/a.rs".to_string()], "b.rs's blob is unchanged, so it's not re-headed");
}

#[test]
fn a_rename_is_not_looked_for_without_the_commit_to_compare_with() {
    assert!(detects_renames(Some("a"), "b", true));
    assert!(!detects_renames(Some("a"), "a", true));
    assert!(!detects_renames(Some("a"), "b", false));
    assert!(!detects_renames(None, "b", true));
}

#[test]
fn a_project_whose_root_is_not_a_git_repo_is_reported_skipped() {
    let mut b = Bench { no_repo: true, ..Default::default() };
    let report = b.run(&mut silent());
    assert_eq!(report.projects.len(), 1);
    assert_eq!(report.projects[0].skipped_reason.as_deref(), Some("not a git repo"));
}

#[test]
fn a_spent_budget_ends_every_queue() {
    let rows = vec![CodeFileRow {
        path: "a".to_string(),
        blob: "1".to_string(),
        status: "dirty".to_string(),
        summary_attempts: 0,
    }];
    let projects = vec![(0, ProjectRow { id: 1, name: "p".to_string(), root_path: "/p".to_string() })];
    let tasks = run_module_summary_pass("p", &vec![], &rows, None).tasks;
    let (open, spent) = (Budget::new(1), Budget::new(0));
    assert_eq!(next_dirty_file(&open, &rows, 0), Some(&rows[0]));
    assert_eq!(next_dirty_file(&open, &rows, 1), None);
    assert_eq!(next_dirty_file(&spent, &rows, 0), None);
    assert_eq!(next_project(&open, &projects, 0).map(|p| p.id), Some(1));
    assert!(next_project(&spent, &projects, 0).is_none());
    assert_eq!(next_module(&open, &tasks, 0).map(|t| t.dir.as_str()), Some("/"));
    assert!(next_module(&spent, &tasks, 0).is_none());
}

#[test]
fn path_prefix_leaves_head_unchanged() {
    let mut b = Bench::with(&[("src/a.rs", "fn a() {}\n")]);
    let outcome = b.run_with(&mut Llm::default(), Embedder::Works, &with_prefix("src")).unwrap().projects.remove(0);
    assert_eq!(outcome.files_chunked, 1);
    assert!(!outcome.head_advanced, "a --path-prefix run must never advance code_indexed_head");
    assert!(b.head.is_none());
}

#[test]
fn path_prefix_skips_the_history_stage_entirely() {
    let mut b = Bench::with(&[("src/a.rs", "fn a() {}\n")]);
    let outcome = b.run_with(&mut Llm::default(), Embedder::Works, &with_prefix("src")).unwrap().projects.remove(0);
    assert_eq!(outcome.months_summarized, 0, "a --path-prefix run must skip the history stage");
    assert!(b.history.is_none());
}

#[test]
fn path_prefix_with_a_trailing_slash_matches_the_same_files_as_without_one() {
    for prefix in ["src", "src/"] {
        let mut b = Bench::with(&[("src/a.rs", "fn a() {}\n"), ("other/b.rs", "fn b() {}\n")]);
        let outcome = b.run_with(&mut Llm::default(), Embedder::Works, &with_prefix(prefix)).unwrap().projects.remove(0);
        assert_eq!(outcome.files_chunked, 1, "{}", prefix);
    }
}

#[test]
fn history_only_runs_only_the_history_stage() {
    let mut b = Bench::with(&[("src/a.rs", "fn a() {}\n")]);
    let mut o = IndexOptions::new();
    o.project = Some("proj".to_string());
    o.history_only = true;
    let outcome = b.run_with(&mut Llm::default(), Embedder::Works, &o).unwrap().projects.remove(0);
    assert!(outcome.months_summarized >= 1, "the current month must still be attempted: {:?}", outcome);
    assert!(b.history.is_some());
    assert_eq!(outcome.files_chunked, 0, "a --history-only run must never chunk files");
    assert_eq!(outcome.headers_attempted, 0);
    assert_eq!(outcome.summaries_attempted, 0);
    assert_eq!(outcome.modules_attempted, 0);
    assert!(!outcome.scope_ran, "a --history-only run must never run the scope pass");
    assert!(!outcome.head_advanced, "a --history-only run must never advance code_indexed_head");
    assert_eq!(b.with_status("dirty").len(), 0);
    assert!(b.scopes.is_empty(), "scope pass must not have run");
}

#[test]
fn one_projects_error_is_recorded_and_the_run_continues_with_the_next() {
    let mut good = Bench::with(&[("src/a.rs", "fn a() {}\n")]);
    let mut budget = Budget::new(300);
    let o = IndexOptions::new();
    let mut outcomes: Vec<ProjectOutcome> = vec![];
    let broken: Result<ProjectOutcome, KbError> = Err(KbError::Other("no commit yet".to_string()));
    record_result(&mut outcomes, "broken", broken, o.path_prefix.as_deref()).unwrap();
    let result = good.index(&mut Llm::default(), Embedder::Works, &mut budget, &o);
    record_result(&mut outcomes, "good", result, o.path_prefix.as_deref()).unwrap();
    assert!(outcomes[0].project == "broken" && outcomes[0].error.is_some(), "{:?}", outcomes[0]);
    assert!(outcomes[1].error.is_none() && outcomes[1].head_advanced, "{:?}", outcomes[1]);
    assert_eq!(good.with_status("indexed").iter().map(|r| r.path.as_str()).collect::<Vec<&str>>(), vec!["src/a.rs"]);
}
