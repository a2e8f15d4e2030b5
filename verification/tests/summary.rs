use kb::code_index::job::Budget;
use kb::code_index::modules::{
    build_file_tree, child_fresh, cleanup_orphaned_modules, dir_under_prefix, gather_children, is_ready,
    module_reply_writes, module_tasks, next_module, run_module_summary_pass, try_regenerate_one, ChildRef, ModuleStep,
    ModuleSummary, ModuleTask, SummaryRow,
};
use kb::code_index::rows::CodeFileRow;
use kb::code_index::summary::{
    build_module_prompt, children_digest, digest_input, lead_across_paragraphs, lead_of, mirror_content, to_hex,
    ChildSummary,
};
use kb::code_index::writes::{index_source, Write};

#[test]
fn build_module_prompt_drops_the_longest_child_first_when_over_the_char_cap() {
    // "zdir/" (12,000), "mdir/" (11,000), "adir/" (10,000) -- combined
    // ~33,000 exceeds the 30,000 cap by dropping just the longest one
    // (zdir/, ~12,000), leaving ~21,000: it must be the one dropped,
    // not whichever sorts last alphabetically or was inserted last.
    let children = vec![
        ChildSummary { path: "zdir/".to_string(), digest: "d".to_string(), text: "z".repeat(12_000) },
        ChildSummary { path: "mdir/".to_string(), digest: "d".to_string(), text: "m".repeat(11_000) },
        ChildSummary { path: "adir/".to_string(), digest: "d".to_string(), text: "a".repeat(10_000) },
    ];
    let prompt = build_module_prompt("proj", "/", true, &children);
    assert!(!prompt.contains("zdir/:\n"), "the longest child must be dropped first");
    assert!(prompt.contains("mdir/:\n"));
    assert!(prompt.contains("adir/:\n"));
}

#[test]
fn build_module_prompt_keeps_everything_under_the_cap() {
    let children = vec![ChildSummary { path: "a/".to_string(), digest: "d".to_string(), text: "short summary".to_string() }];
    let prompt = build_module_prompt("proj", "a/", false, &children);
    assert!(prompt.contains("Project: proj\nModule: a/\n\n"));
    assert!(prompt.contains("a/:\nshort summary\n"));
    assert!(prompt.contains("250 words"), "a module prompt asks for the 250-word instruction");
}

#[test]
fn build_module_prompt_for_the_repo_asks_for_the_350_word_architecture_overview() {
    let children = vec![ChildSummary { path: "a/".to_string(), digest: "d".to_string(), text: "module a summary".to_string() }];
    let prompt = build_module_prompt("proj", "/", true, &children);
    assert!(prompt.contains("Module: /"));
    assert!(prompt.contains("350 words"));
    assert!(prompt.contains("architecture overview"));
}

#[test]
fn lead_of_keeps_a_short_first_paragraph_whole_and_hard_cuts_one_with_no_sentence_end() {
    assert_eq!(lead_of("Short one. Two.\n\nMore."), "Short one. Two.");
    let no_stop = "word ".repeat(200);
    let lead = lead_of(&no_stop);
    assert!(lead.chars().count() <= 600);
    assert!(lead.ends_with('…'));
}

#[test]
fn children_digest_is_stable_under_reordering_but_changes_with_content() {
    let a = vec![
        ChildSummary { path: "a/".to_string(), digest: "d1".to_string(), text: "t1".to_string() },
        ChildSummary { path: "b/".to_string(), digest: "d2".to_string(), text: "t2".to_string() },
    ];
    let b = vec![
        ChildSummary { path: "b/".to_string(), digest: "d2".to_string(), text: "t2".to_string() },
        ChildSummary { path: "a/".to_string(), digest: "d1".to_string(), text: "t1".to_string() },
    ];
    assert_eq!(children_digest(&a), children_digest(&b), "sorted before hashing, so order never matters");

    let c = vec![
        ChildSummary { path: "a/".to_string(), digest: "different".to_string(), text: "t1".to_string() },
        ChildSummary { path: "b/".to_string(), digest: "d2".to_string(), text: "t2".to_string() },
    ];
    assert_ne!(children_digest(&a), children_digest(&c), "a changed child digest must change the module's own digest");
}


fn file(path: &str, blob: &str) -> CodeFileRow {
    CodeFileRow { path: path.to_string(), blob: blob.to_string(), status: "indexed".to_string(), summary_attempts: 0 }
}

fn given_up(path: &str, blob: &str) -> CodeFileRow {
    CodeFileRow { summary_attempts: 2, ..file(path, blob) }
}

fn summary(path: &str, digest: &str, text: &str) -> SummaryRow {
    SummaryRow { path: path.to_string(), text: text.to_string(), source_digest: digest.to_string(), stale: false }
}

#[derive(Clone)]
struct Stored {
    row: SummaryRow,
    level: String,
    memory_id: Option<i64>,
    stale_since: Option<i64>,
}

struct Memory {
    id: i64,
    source: String,
    content: String,
    invalidated: bool,
    superseded_by: Option<i64>,
}

/// A store in memory that carries out what the module stage decides, on a day.
#[derive(Default)]
struct Bench {
    files: Vec<CodeFileRow>,
    summaries: Vec<Stored>,
    memories: Vec<Memory>,
    day: i64,
    fail: Vec<String>,
    reply: Option<String>,
    calls: Vec<String>,
    prompts: Vec<String>,
}

struct Pass {
    attempted: usize,
    pruned: usize,
}

impl Bench {
    fn new() -> Bench {
        Bench::default()
    }

    fn seed_file(&mut self, path: &str, blob: &str, status: &str) {
        self.files.retain(|f| f.path != path);
        self.files.push(CodeFileRow { status: status.to_string(), ..file(path, blob) });
    }

    fn give_up(&mut self, path: &str, blob: &str) {
        self.files.push(given_up(path, blob));
    }

    fn put(&mut self, path: &str, level: &str, text: &str, digest: &str) {
        let memory_id = self.get(path).and_then(|s| s.memory_id);
        self.summaries.retain(|s| s.row.path != path);
        self.summaries.push(Stored {
            row: summary(path, digest, text),
            level: level.to_string(),
            memory_id,
            stale_since: None,
        });
    }

    fn seed_file_summary(&mut self, path: &str, blob: &str, text: &str) {
        self.put(path, "file", text, blob);
    }

    fn get(&self, path: &str) -> Option<&Stored> {
        self.summaries.iter().find(|s| s.row.path == path)
    }

    fn mark_stale(&mut self, paths: &[&str]) {
        let day = self.day;
        for s in self.summaries.iter_mut().filter(|s| paths.contains(&s.row.path.as_str())) {
            s.row.stale = true;
            s.stale_since = s.stale_since.or(Some(day));
        }
    }

    fn remember(&mut self, source: &str, content: &str) -> i64 {
        let id = self.memories.len() as i64 + 1;
        for m in self.memories.iter_mut().filter(|m| m.source == source && !m.invalidated) {
            m.invalidated = true;
            m.superseded_by = Some(id);
        }
        self.memories.push(Memory {
            id,
            source: source.to_string(),
            content: content.to_string(),
            invalidated: false,
            superseded_by: None,
        });
        id
    }

    fn memory(&self, id: i64) -> &Memory {
        self.memories.iter().find(|m| m.id == id).unwrap()
    }

    fn active(&self, source: &str) -> Vec<&Memory> {
        self.memories.iter().filter(|m| m.source == source && !m.invalidated).collect()
    }

    fn perform(&mut self, ws: Vec<Write>) {
        let day = self.day;
        for w in ws {
            match w {
                Write::SeedPlaceholder(path, level) => {
                    self.put(&path, &level, "", "");
                    self.mark_stale(&[&path]);
                }
                Write::ClearStale(path, digest) => {
                    for s in self.summaries.iter_mut().filter(|s| s.row.path == path) {
                        s.row.stale = false;
                        s.stale_since = None;
                        s.row.source_digest = digest.clone();
                    }
                }
                Write::EmptySummary(path) => {
                    for s in self.summaries.iter_mut().filter(|s| s.row.path == path) {
                        s.row.text = String::new();
                        s.row.stale = true;
                        s.stale_since = Some(day);
                        s.memory_id = None;
                    }
                }
                Write::PutModuleSummary(path, level, text, digest) => self.put(&path, &level, &text, &digest),
                Write::PutMirror(path, source, content) => {
                    let id = self.remember(&source, &content);
                    for s in self.summaries.iter_mut().filter(|s| s.row.path == path) {
                        s.memory_id = Some(id);
                    }
                }
                Write::InvalidateSource(source) => {
                    for m in self.memories.iter_mut().filter(|m| m.source == source) {
                        m.invalidated = true;
                    }
                }
                Write::InvalidateMemory(id) => {
                    for m in self.memories.iter_mut().filter(|m| m.id == id) {
                        m.invalidated = true;
                    }
                }
                Write::DeleteSummary(path) => self.summaries.retain(|s| s.row.path != path),
                Write::EmbedSummary(_, _) => {}
                other => panic!("not a write of this stage: {:?}", other),
            }
        }
    }

    fn pass(&mut self, budget: &mut Budget, prefix: Option<&str>) -> Pass {
        let rows: Vec<CodeFileRow> =
            self.files.iter().filter(|f| f.status == "indexed" || f.status == "fallback").cloned().collect();
        let existing: Vec<ModuleSummary> = self
            .summaries
            .iter()
            .filter(|s| s.level != "file")
            .map(|s| ModuleSummary { path: s.row.path.clone(), level: s.level.clone(), memory_id: s.memory_id })
            .collect();
        let start = run_module_summary_pass("proj", &existing, &rows, prefix);
        self.perform(start.writes);
        let mut attempted = 0;
        let mut turn = 0;
        while let Some(task) = next_module(budget, &start.tasks, turn) {
            turn += 1;
            let own = self.get(&task.dir).cloned();
            let overdue = own.as_ref().and_then(|s| s.stale_since).map_or(false, |since| self.day - since >= 7);
            let all: Vec<SummaryRow> = self.summaries.iter().map(|s| s.row.clone()).collect();
            match try_regenerate_one("proj", task, own.as_ref().map(|s| &s.row), &all, &rows, overdue) {
                ModuleStep::Settled(ws) => self.perform(ws),
                ModuleStep::Ask(prompt, digest) => {
                    attempted += 1;
                    self.calls.push(task.dir.clone());
                    self.prompts.push(prompt);
                    if self.fail.contains(&task.dir) {
                        budget.record(Some("simulated failure"));
                        continue;
                    }
                    budget.record(None);
                    let reply = self.reply.clone().unwrap_or_else(|| format!("summary for {}", task.dir));
                    let ws = module_reply_writes("proj", task, &digest, &reply);
                    self.perform(ws);
                }
            }
        }
        Pass { attempted, pruned: start.pruned }
    }

    fn run(&mut self, prefix: Option<&str>) -> Pass {
        self.pass(&mut Budget::new(10), prefix)
    }
}

#[test]
fn the_module_set_is_depth_1_and_2_dirs_with_an_indexed_file_recursively_plus_the_repo_root() {
    let mut b = Bench::new();
    b.seed_file("a/x.rs", "b1", "indexed");
    b.seed_file_summary("a/x.rs", "b1", "x summary");
    b.seed_file("a/b/c/z.rs", "b2", "indexed");
    b.seed_file_summary("a/b/c/z.rs", "b2", "z summary");
    b.seed_file("skip/y.rs", "b3", "skipped");
    b.run(None);
    assert!(b.get("a/").is_some(), "a/ has an indexed file directly in it");
    assert!(b.get("a/b/").is_some(), "a/b/ has an indexed file recursively under it");
    assert!(b.get("a/b/c/").is_none(), "depth-3 is never a module");
    assert!(b.get("skip/").is_none(), "a skipped file's directory is never a module");
    assert!(b.get("/").is_some(), "the repo root is always a candidate once anything is indexed");
}

#[test]
fn the_file_tree_lists_its_modules_in_order() {
    let tree = build_file_tree(&vec![file("b/x.rs", "1"), file("a/b/c/z.rs", "2"), file("a/y.rs", "3")]);
    assert_eq!(tree.depth1_dirs, vec!["a/".to_string(), "b/".to_string()]);
    assert_eq!(tree.depth2_dirs, vec!["a/b/".to_string()]);
}

#[test]
fn processes_modules_deepest_first_depth_2_then_depth_1_then_the_repo() {
    let mut b = Bench::new();
    for (path, blob) in [("a/b/x.rs", "b1"), ("a/y.rs", "b2")] {
        b.seed_file(path, blob, "indexed");
        b.seed_file_summary(path, blob, &format!("summary for {}", path));
    }
    b.run(None);
    assert_eq!(b.calls, vec!["a/b/".to_string(), "a/".to_string(), "/".to_string()]);
}

#[test]
fn a_module_with_an_unready_child_and_no_existing_row_seeds_a_placeholder_recording_first_seen() {
    let mut b = Bench::new();
    b.day = 24;
    b.seed_file("a/x.rs", "blob-x", "indexed");
    b.seed_file_summary("a/x.rs", "blob-x", "x summary");
    b.seed_file("a/y.rs", "blob-y-new", "indexed");
    b.seed_file_summary("a/y.rs", "blob-y-old", "y summary (stale)");
    b.run(None);
    let own = b.get("a/").unwrap();
    assert!(own.row.stale, "not every child is fresh yet");
    assert_eq!(own.row.text, "", "a placeholder, not a real summary");
    assert_eq!(own.stale_since, Some(24));
    assert!(b.calls.is_empty(), "an unready, never-generated module makes no LLM call");
}

#[test]
fn a_stale_module_regenerates_once_it_has_sat_stale_seven_or_more_days_even_with_an_unready_child() {
    let mut b = Bench::new();
    b.day = 1;
    b.seed_file("a/x.rs", "blob-x", "indexed");
    b.seed_file_summary("a/x.rs", "blob-x", "x summary");
    b.seed_file("a/y.rs", "blob-y-new", "indexed");
    b.seed_file_summary("a/y.rs", "blob-y-old", "y summary (stale)");
    b.put("a/", "module", "old a/ summary", "old-digest");
    b.mark_stale(&["a/"]);
    b.day = 24;
    b.run(None);
    let own = b.get("a/").unwrap();
    assert!(!own.row.stale, "the 7-day override regenerates using whatever children currently exist");
    assert_ne!(own.row.text, "old a/ summary");
}

#[test]
fn a_new_module_with_one_given_up_child_becomes_ready() {
    let mut b = Bench::new();
    b.seed_file("a/x.rs", "blob-x", "indexed");
    b.seed_file_summary("a/x.rs", "blob-x", "x summary");
    b.give_up("a/y.rs", "blob-y");
    b.run(None);
    assert!(!b.get("a/").unwrap().row.stale, "the given-up child no longer blocks readiness");
    assert!(b.calls.contains(&"a/".to_string()));
    assert!(b.prompts[0].contains("a/x.rs:\nx summary") && !b.prompts[0].contains("a/y.rs"));
}

#[test]
fn a_never_summarised_module_regenerates_via_the_seven_day_override_once_its_placeholder_is_old_enough() {
    let mut b = Bench::new();
    b.day = 1;
    b.seed_file("a/x.rs", "blob-x", "indexed");
    b.seed_file_summary("a/x.rs", "blob-x", "x summary");
    b.seed_file("a/y.rs", "blob-y", "indexed");
    b.run(None);
    let placeholder = b.get("a/").unwrap();
    assert!(placeholder.row.stale);
    assert_eq!(placeholder.row.text, "", "no real row yet, just the first-seen placeholder");
    assert_eq!(placeholder.stale_since, Some(1));
    assert!(b.calls.is_empty(), "not ready yet, so no call this run");

    b.day = 9;
    b.run(None);
    let own = b.get("a/").unwrap();
    assert!(!own.row.stale, "the 7-day override regenerates even though a/y.rs never became fresh");
    assert_ne!(own.row.text, "", "a real summary now, not the placeholder");
    assert!(b.calls.contains(&"a/".to_string()));
}

#[test]
fn a_failed_module_call_leaves_no_row_so_it_is_retried_next_run() {
    let mut b = Bench::new();
    b.seed_file("a/x.rs", "b1", "indexed");
    b.seed_file_summary("a/x.rs", "b1", "x summary");
    b.fail = vec!["a/".to_string()];
    assert_eq!(b.run(None).attempted, 1, "the call was attempted, and spent budget, even though it failed");
    assert!(b.get("a/").is_none(), "a failed call leaves no row at all");
    b.fail.clear();
    b.run(None);
    assert_eq!(b.get("a/").unwrap().row.text, "summary for a/");
}

#[test]
fn a_reply_that_is_no_summary_is_not_written() {
    for nonsense in ["  \n", "Let me look.\n**Tool: glob**"] {
        let mut b = Bench::new();
        b.seed_file("a/x.rs", "b1", "indexed");
        b.seed_file_summary("a/x.rs", "b1", "x");
        b.reply = Some(nonsense.to_string());
        b.run(None);
        assert!(b.get("a/").is_none(), "{:?}", nonsense);
    }
}

#[test]
fn regenerating_a_module_mirrors_into_memories_and_supersedes_the_previous_mirror() {
    let mut b = Bench::new();
    b.seed_file("a/x.rs", "blob1", "indexed");
    b.seed_file_summary("a/x.rs", "blob1", "file summary v1");
    b.run(None);
    let memory_id = b.get("a/").unwrap().memory_id.expect("a module summary must have a mirrored memory");
    assert_eq!(b.memory(memory_id).source, "code-index:proj:a/");
    assert!(b.memory(memory_id).content.starts_with("proj a/: "));
    assert!(!b.memory(memory_id).invalidated);

    b.seed_file("a/x.rs", "blob2", "indexed");
    b.seed_file_summary("a/x.rs", "blob2", "file summary v2");
    b.mark_stale(&["a/"]);
    b.run(None);
    let memory_id2 = b.get("a/").unwrap().memory_id.expect("still has a mirrored memory id");
    assert_ne!(memory_id, memory_id2, "regeneration mirrors into a NEW memory row");
    assert!(b.memory(memory_id).invalidated, "the old mirror must be superseded");
    assert_eq!(b.memory(memory_id).superseded_by, Some(memory_id2));
    assert_eq!(b.active("code-index:proj:a/").len(), 1, "exactly one active mirror per source");
}

#[test]
fn the_repo_summary_mirrors_with_an_architecture_content_prefix_and_the_root_source() {
    let mut b = Bench::new();
    b.seed_file("a/x.rs", "b1", "indexed");
    b.seed_file_summary("a/x.rs", "b1", "x summary");
    b.run(None);
    let own = b.get("/").unwrap();
    assert_eq!(own.level, "repo");
    let m = b.memory(own.memory_id.expect("the repo summary must have a mirrored memory"));
    assert_eq!(m.source, "code-index:proj:/");
    assert!(m.content.starts_with("proj architecture: "), "{}", m.content);
    assert_eq!(index_source("proj", "/"), "code-index:proj:/");
}

#[test]
fn a_repo_with_no_depth_1_directories_is_summarised_from_its_root_files() {
    let mut b = Bench::new();
    b.seed_file("main.rs", "b1", "indexed");
    b.seed_file_summary("main.rs", "b1", "main summary");
    b.seed_file("lib.rs", "b2", "indexed");
    b.seed_file_summary("lib.rs", "b2", "lib summary");
    b.run(None);
    assert!(!b.get("/").expect("it must still be summarised, from its root files").row.stale);
    assert!(b.calls.contains(&"/".to_string()));
}

#[test]
fn a_repo_with_no_depth_1_dirs_waits_on_an_unready_root_file_instead_of_summarising_from_nothing() {
    let mut b = Bench::new();
    b.seed_file("main.rs", "b1", "indexed");
    b.seed_file_summary("main.rs", "b1", "main summary");
    b.seed_file("lib.rs", "b2-new", "indexed");
    b.seed_file_summary("lib.rs", "b2-old", "lib summary (stale)");
    b.run(None);
    assert!(b.calls.is_empty(), "an unready root file must block the repo summary, not be silently ignored");
    assert!(b.get("/").unwrap().row.stale, "seeded as a first-seen placeholder, not summarised from nothing");
}

#[test]
fn cleanup_prunes_a_module_and_the_repo_once_their_directories_have_no_indexed_files_left_and_tombstones_their_memories() {
    let mut b = Bench::new();
    b.put("a/", "module", "old a/ summary", "old-digest");
    let memory_id = b.remember("code-index:proj:a/", "proj a/: old a/ summary");
    b.summaries[0].memory_id = Some(memory_id);
    b.put("/", "repo", "old repo summary", "old-digest");
    let result = b.run(None);
    assert_eq!(result.pruned, 2);
    assert_eq!(result.attempted, 0, "pruning costs zero LLM calls");
    assert!(b.calls.is_empty());
    assert!(b.get("a/").is_none());
    assert!(b.get("/").is_none());
    assert!(b.memory(memory_id).invalidated, "its mirrored memory is tombstoned");
    assert!(b.memory(memory_id).superseded_by.is_none(), "tombstoned WITHOUT a successor");
}

#[test]
fn a_module_with_a_file_anywhere_below_it_is_no_orphan() {
    let existing = vec![
        ModuleSummary { path: "a/".to_string(), level: "module".to_string(), memory_id: Some(7) },
        ModuleSummary { path: "/".to_string(), level: "repo".to_string(), memory_id: None },
    ];
    let (ws, pruned) = cleanup_orphaned_modules("proj", &existing, &vec![file("a/b/c.rs", "1")]);
    assert_eq!((ws.len(), pruned), (0, 0));
    let (ws, pruned) = cleanup_orphaned_modules("proj", &existing, &vec![]);
    assert_eq!(pruned, 2);
    assert!(ws.iter().any(|w| matches!(w, Write::InvalidateMemory(7))));
}

#[test]
fn orphan_cleanup_invalidates_every_active_mirror_by_source_including_a_restored_one() {
    let mut b = Bench::new();
    b.put("a/", "module", "old a/", "d");
    let old = b.remember("code-index:proj:a/", "gen1");
    let cur = b.remember("code-index:proj:a/", "gen2");
    b.summaries[0].memory_id = Some(cur);
    b.memories[0].invalidated = false;
    b.run(None);
    assert!(b.memory(old).invalidated, "restored older generation invalidated too");
    assert!(b.memory(cur).invalidated);
}

#[test]
fn budget_stops_cleanly_and_the_rest_resumes_on_the_next_call() {
    let mut b = Bench::new();
    for (path, blob) in [("a/x.rs", "b1"), ("b/y.rs", "b2")] {
        b.seed_file(path, blob, "indexed");
        b.seed_file_summary(path, blob, &format!("summary for {}", path));
    }
    let mut budget = Budget::new(1);
    assert_eq!(b.pass(&mut budget, None).attempted, 1, "budget of 1 allows exactly one module call this run");
    assert!(!budget.remaining());
    assert_eq!(b.run(None).attempted, 2, "the other depth-1 module, then the repo, once both are fresh");
    assert!(b.get("/").is_some());
}

#[test]
fn a_module_whose_children_all_gave_up_makes_no_call_and_stays_a_cleared_placeholder() {
    let mut b = Bench::new();
    b.give_up("a/y.rs", "blob-y");
    let result = b.run(None);
    assert!(b.calls.is_empty(), "no children with text -> no call at any level: {:?}", b.calls);
    assert_eq!(result.attempted, 0);
    let own = b.get("a/").unwrap();
    assert_eq!(own.row.text, "");
    assert!(!own.row.stale, "stale cleared so it is not re-checked every run");
    assert!(own.memory_id.is_none(), "a placeholder is never mirrored");
    assert_eq!(b.get("/").unwrap().row.text, "", "the repo's only child is a placeholder too");
    assert!(b.memories.is_empty());
}

#[test]
fn a_summary_whose_children_all_emptied_out_is_cleared_with_its_mirror() {
    let mut b = Bench::new();
    b.give_up("a/y.rs", "b");
    b.put("a/", "module", "old text", "d");
    b.remember("code-index:proj:a/", "old");
    b.mark_stale(&["a/"]);
    b.run(Some("a"));
    assert_eq!(b.get("a/").unwrap().row.text, "");
    assert!(!b.get("a/").unwrap().row.stale && b.active("code-index:proj:a/").is_empty());
}

#[test]
fn an_unchanged_children_digest_clears_stale_without_a_call() {
    let mut b = Bench::new();
    b.seed_file("a/x.rs", "b1", "indexed");
    b.seed_file_summary("a/x.rs", "b1", "x summary");
    b.run(None);
    let before = b.get("a/").cloned().unwrap();
    let calls_before = b.calls.len();
    b.mark_stale(&["a/", "/"]);
    b.run(None);
    assert_eq!(b.calls.len(), calls_before, "digest unchanged -> no call");
    let after = b.get("a/").unwrap();
    assert!(!after.row.stale);
    assert_eq!(after.row.text, before.row.text);
    assert_eq!(after.memory_id, before.memory_id, "no new mirror generation either");
    assert!(!b.get("/").unwrap().row.stale);
}

#[test]
fn placeholder_children_are_never_gathered_into_a_prompt() {
    let mut b = Bench::new();
    b.give_up("a/y.rs", "blob-y");
    b.seed_file("b/x.rs", "b1", "indexed");
    b.seed_file_summary("b/x.rs", "b1", "x summary");
    b.run(None);
    let repo_prompt = b.prompts.iter().find(|p| p.contains("Module: /\n")).expect("repo was summarised");
    assert!(repo_prompt.contains("b/:\n"));
    assert!(!repo_prompt.contains("a/:\n"), "an empty placeholder child adds nothing to the prompt");
}

#[test]
fn a_mixed_repo_summarises_from_root_files_and_depth_1_modules_together() {
    let mut b = Bench::new();
    b.seed_file("main.rs", "m1", "indexed");
    b.seed_file_summary("main.rs", "m1", "main summary");
    b.seed_file("a/x.rs", "b1", "indexed");
    b.seed_file_summary("a/x.rs", "b1", "x summary");
    b.run(None);
    let repo_prompt = b.prompts.iter().find(|p| p.contains("Module: /\n")).expect("repo was summarised");
    assert!(repo_prompt.contains("main.rs:\nmain summary"), "{}", repo_prompt);
    assert!(repo_prompt.contains("a/:\n"), "{}", repo_prompt);
    let d1 = b.get("/").unwrap().row.source_digest.clone();
    b.seed_file("main.rs", "m2", "indexed");
    b.seed_file_summary("main.rs", "m2", "main summary v2");
    b.mark_stale(&["/"]);
    b.run(None);
    assert_ne!(d1, b.get("/").unwrap().row.source_digest);
}

#[test]
fn the_memory_mirror_is_a_short_lead_with_a_pointer_while_code_summaries_keeps_the_full_text() {
    let mut b = Bench::new();
    b.seed_file("a/x.rs", "b1", "indexed");
    b.seed_file_summary("a/x.rs", "b1", "x summary");
    let sentence = "The picking module resolves pointer rays against scene geometry. ";
    let long_para = sentence.repeat(15);
    let reply = format!("{}\n\nSecond paragraph with more detail.", long_para.trim());
    b.reply = Some(reply.clone());
    b.run(None);
    let own = b.get("a/").unwrap();
    assert_eq!(own.row.text, reply.trim(), "the full text stays in code_summaries");
    let content = &b.memory(own.memory_id.unwrap()).content;
    let suffix = " (full: mach kb ask --project proj \u{2026} overview a/)";
    assert!(content.starts_with("proj a/: "), "{}", content);
    assert!(content.ends_with(suffix), "{}", content);
    let lead = &content["proj a/: ".len()..content.len() - suffix.len()];
    assert!(lead.chars().count() <= 600, "{} chars", lead.chars().count());
    assert!(lead.ends_with('.'), "cut at a sentence boundary: {:?}", lead);
    assert!(!lead.contains("Second paragraph"));
}

#[test]
fn a_path_prefix_run_only_touches_modules_under_the_prefix_and_never_the_repo() {
    let mut b = Bench::new();
    for (path, blob) in [("a/b/x.rs", "b1"), ("a/y.rs", "b2"), ("c/z.rs", "b3")] {
        b.seed_file(path, blob, "indexed");
        b.seed_file_summary(path, blob, &format!("summary for {}", path));
    }
    b.run(Some("a"));
    assert_eq!(b.calls, vec!["a/b/".to_string(), "a/".to_string()]);
    assert!(b.get("/").is_none(), "no repo row at all on a prefix run");
    assert!(b.get("c/").is_none());
    assert!(!b.memories.iter().any(|m| m.source == "code-index:proj:/"));
    assert!(dir_under_prefix("a/b/", "a/") && !dir_under_prefix("ab/", "a") && dir_under_prefix("x/", "/"));
}

#[test]
fn the_digest_is_the_sha256_of_the_sorted_lines() {
    let one = vec![ChildSummary { path: "abc".to_string(), digest: "d".to_string(), text: "t".to_string() }];
    assert_eq!(digest_input(&one), "abc:d");
    assert_eq!(children_digest(&one).len(), 64);
    assert_eq!(
        children_digest(&vec![]),
        "e3b0c44298fc1c149afbf4c8996fb92427ae41e4649b934ca495991b7852b855",
        "the digest of nothing"
    );
    assert_eq!(to_hex(&[0x00, 0x0f, 0xa5, 0xff]), "000fa5ff");
}

#[test]
fn children_are_fresh_by_digest_by_giving_up_or_by_not_being_stale() {
    let f = |p: &str| ChildRef { path: p.to_string(), is_file: true };
    let m = |p: &str| ChildRef { path: p.to_string(), is_file: false };
    let files = vec![file("x", "1"), given_up("y", "2")];
    let mut rows = vec![summary("x", "1", "t"), summary("d/", "", "")];
    assert!(child_fresh(&f("x"), &rows, &files));
    assert!(child_fresh(&f("y"), &rows, &files));
    assert!(!child_fresh(&f("z"), &rows, &files));
    assert!(child_fresh(&m("d/"), &rows, &files) && !child_fresh(&m("e/"), &rows, &files));
    rows[1].stale = true;
    assert!(!child_fresh(&m("d/"), &rows, &files));
    assert!(is_ready(&vec![f("x"), f("y")], &rows, &files, false));
    assert!(!is_ready(&vec![f("x"), m("d/")], &rows, &files, false));
    assert!(is_ready(&vec![m("d/")], &rows, &files, true));
    let g = gather_children(&vec![f("x"), m("d/")], &rows);
    assert_eq!(g.len(), 1);
    assert_eq!((g[0].path.as_str(), g[0].digest.as_str(), g[0].text.as_str()), ("x", "1", "t"));
}

#[test]
fn leads_are_cut_behind_a_sentence_or_at_a_word() {
    let s = "A sentence here. ".repeat(50);
    let lead = lead_across_paragraphs(&s.replace("here. A", "here.\n\nA"));
    assert!(lead.ends_with("here.") && lead.chars().count() <= 600);
    assert_eq!(lead_across_paragraphs("  two\n\nparts  "), "two parts");
    let solid = "x".repeat(700);
    assert_eq!(lead_of(&solid), format!("{}\u{2026}", "x".repeat(599)));
    assert_eq!(
        mirror_content("p", "a/b/", "module", "Short."),
        "p a/b/: Short. (full: mach kb ask --project p \u{2026} overview a/b/)"
    );
}

#[test]
fn the_prompt_drops_the_later_of_two_equally_long_children_and_sorts_the_rest() {
    let c = |p: &str, n: usize| ChildSummary { path: p.to_string(), digest: "d".to_string(), text: "t".repeat(n) };
    let p = build_module_prompt("proj", "m/", false, &vec![c("b/", 16_000), c("a/", 16_000), c("0/", 10)]);
    assert!(p.contains("b/:\n") && !p.contains("a/:\n"));
    assert!(p.find("0/:\n").unwrap() < p.find("b/:\n").unwrap());
    let none = build_module_prompt("proj", "m/", false, &vec![c("a/", 40_000)]);
    assert!(none.starts_with("Project: proj\nModule: m/\n\nYou have no tools"));
}

#[test]
fn module_tasks_list_their_children() {
    let tasks: Vec<ModuleTask> = module_tasks(&vec![file("a/b/x.rs", "1"), file("a/y.rs", "2"), file("r.rs", "3")], None);
    let seen: Vec<(String, bool, Vec<(String, bool)>)> = tasks
        .iter()
        .map(|t| (t.dir.clone(), t.is_repo, t.children.iter().map(|c| (c.path.clone(), c.is_file)).collect()))
        .collect();
    let s = |x: &str| x.to_string();
    assert_eq!(
        seen,
        vec![
            (s("a/b/"), false, vec![(s("a/b/x.rs"), true)]),
            (s("a/"), false, vec![(s("a/y.rs"), true), (s("a/b/"), false)]),
            (s("/"), true, vec![(s("r.rs"), true), (s("a/"), false)]),
        ]
    );
}
