use kb::code_index::changes::{
    ancestor_summary_paths, cleanup_recategorized_files, compute_changes, filter_in_scope, parent_dir, prefix_matcher,
    sweep_secret_rows, top_level_dirs,
};
use kb::code_index::job::{
    admit_file, backfill_embeddings, backfill_scope, backfill_symbols, filter_projects, finalize_dirty_file, index_report,
    order_runnable, plan_history, plan_not_a_repo, plan_project, record_result, run_summary_pass, selected_projects,
    skipped_total, stale_module_count, summary_backfill_scope, summary_call, summary_candidates, Admission, BackfillStep,
    Budget, HeaderStep, IndexOptions, ProjectRow, SummaryStep, Unembedded, DEFAULT_BUDGET, MAX_CONSECUTIVE_FAILURES,
};
use kb::code_index::reply::{
    build_header_prompt, build_summary_prompt, embedding_input, is_tool_transcript, parse_header_reply,
    parse_summary_reply, truncate_for_prompt, ChunkMeta,
};
use kb::code_index::rows::{CodeFileRow, ScopeRow, TrackedFile};
use kb::code_index::stages::{Ending, Event, ProjectOutcome, ProjectRun, Stage};
use kb::code_index::writes::{
    change_writes, header_reply_writes, mark_skipped, recategorized_writes, record_unparseable_summary,
    summary_reply_writes, Write,
};
use kb::error::KbError;

const CHUNK_CHARS: usize = 6_000;

fn opts() -> IndexOptions {
    IndexOptions::new()
}

fn project(id: i64, name: &str) -> ProjectRow {
    ProjectRow { id, name: name.to_string(), root_path: format!("/repo/{}", name) }
}

fn in_tree(path: &str, blob: &str) -> TrackedFile {
    TrackedFile { path: path.to_string(), blob: blob.to_string() }
}

fn row(path: &str, blob: &str, status: &str) -> CodeFileRow {
    CodeFileRow { path: path.to_string(), blob: blob.to_string(), status: status.to_string(), summary_attempts: 0 }
}

fn scope_row(dir: &str, category: &str) -> ScopeRow {
    ScopeRow {
        project_id: 1,
        dir: dir.to_string(),
        category: category.to_string(),
        source: "llm".to_string(),
        decided_at: "2026-09-23T00:00:00Z".to_string(),
    }
}

fn chunk(id: i64, kind: &str, text: &str) -> ChunkMeta {
    ChunkMeta { id, symbol: None, kind: kind.to_string(), start_line: 1, end_line: 2, text: text.to_string() }
}

fn strings(v: &[&str]) -> Vec<String> {
    v.iter().map(|s| s.to_string()).collect()
}

fn shown(ws: &[Write]) -> Vec<String> {
    ws.iter().map(|w| format!("{:?}", w)).collect()
}

#[test]
fn tool_call_narration_is_recognised_but_prose_is_not() {
    assert!(is_tool_transcript("Let me check.\n\n**Tool: glob**\n\nParameters:\n```json\n{}\n```"));
    assert!(is_tool_transcript("<function_calls>\n<invoke name=\"Bash\">"));
    assert!(!is_tool_transcript("**Purpose:** helios-unlit is a reference plugin.\nIt uses a tool: glslc."));
}

#[test]
fn parse_header_reply_accepts_hash_and_bare_number_prefixes() {
    let reply = "#1: first chunk header\n2: second chunk header\ngarbage line\n#3:\n";
    let (parsed, summary) = parse_header_reply(reply);
    assert_eq!(parsed.get(&1).unwrap(), "first chunk header");
    assert_eq!(parsed.get(&2).unwrap(), "second chunk header");
    assert!(!parsed.contains_key(&3), "an empty header after the colon leaves the chunk unheaded");
    assert!(summary.is_none(), "no SUMMARY: line in this reply");
}

#[test]
fn parse_header_reply_extracts_headers_and_a_multi_line_summary_together() {
    let reply = "#1: first chunk header\n2: second chunk header\nSUMMARY: does a thing.\nHas a gotcha on the second line.\n";
    let (headers, summary) = parse_header_reply(reply);
    assert_eq!(headers.get(&1).unwrap(), "first chunk header");
    assert_eq!(headers.get(&2).unwrap(), "second chunk header");
    assert_eq!(summary.unwrap(), "does a thing.\nHas a gotcha on the second line.");
}

#[test]
fn parse_header_reply_with_no_summary_marker_returns_none() {
    let reply = "#1: first chunk header\n";
    let (headers, summary) = parse_header_reply(reply);
    assert_eq!(headers.get(&1).unwrap(), "first chunk header");
    assert!(summary.is_none());
}

#[test]
fn parse_header_reply_an_empty_summary_marker_is_none() {
    let reply = "#1: h\nSUMMARY:\n";
    let (_, summary) = parse_header_reply(reply);
    assert!(summary.is_none(), "SUMMARY: alone, nothing after it anywhere, must be None");
}

#[test]
fn parse_header_reply_ignores_garbage_lines_but_still_finds_the_summary() {
    let reply = "not a header line\n#nope: not a number\nSUMMARY: the real summary\n";
    let (headers, summary) = parse_header_reply(reply);
    assert!(headers.is_empty());
    assert_eq!(summary.unwrap(), "the real summary");
}

#[test]
fn parse_header_reply_a_second_summary_looking_line_is_just_more_summary_text() {
    let reply = "SUMMARY: first line\nSUMMARY: not a new marker, just text\n";
    let (_, summary) = parse_header_reply(reply);
    assert_eq!(summary.unwrap(), "first line\nSUMMARY: not a new marker, just text");
}

#[test]
fn parse_summary_reply_is_the_summary_half_of_the_same_grammar() {
    assert_eq!(parse_summary_reply("SUMMARY: only a summary, no chunks\n").unwrap(), "only a summary, no chunks");
    assert!(parse_summary_reply("no marker here at all\n").is_none());
}

#[test]
fn ancestor_summary_paths_caps_at_depth_two_plus_the_repo_root() {
    assert_eq!(ancestor_summary_paths("a/b/c/x.cpp"), vec!["a/".to_string(), "a/b/".to_string(), "/".to_string()]);
    assert_eq!(ancestor_summary_paths("a/x.cpp"), vec!["a/".to_string(), "/".to_string()]);
    assert_eq!(ancestor_summary_paths("x.cpp"), vec!["/".to_string()]);
}

#[test]
fn embedding_input_is_header_newline_first_line_newline_text_truncated() {
    let input = embedding_input(Some("a header"), "fn foo() {\n  body\n}", CHUNK_CHARS);
    assert_eq!(input, "a header\nfn foo() {\nfn foo() {\n  body\n}", "header + \\n + first line + \\n + full text");

    let long_text = "x".repeat(CHUNK_CHARS * 2);
    let input = embedding_input(None, &long_text, CHUNK_CHARS);
    assert_eq!(input.chars().count(), CHUNK_CHARS);
}

#[test]
fn build_summary_prompt_has_no_chunk_list() {
    let prompt = build_summary_prompt("proj", "src/a.rs", "fn foo() {}\n");
    assert!(prompt.contains("Project: proj\nFile: src/a.rs"));
    assert!(!prompt.contains("Chunks:"), "a summary-only prompt must never carry a chunk list");
    assert!(prompt.contains("SUMMARY:"));
}

#[test]
fn parse_header_reply_tolerates_markdown_summary_markers_and_a_leading_summary_block() {
    for marker in ["**SUMMARY:**", "## SUMMARY:", "**SUMMARY**:", "SUMMARY:"] {
        let (h, s) = parse_header_reply(&format!("#1: first\n{} does things\nmore", marker));
        assert_eq!(h.get(&1).map(|s| s.as_str()), Some("first"), "{}", marker);
        assert_eq!(s.as_deref(), Some("does things\nmore"), "{}", marker);
    }
    // SUMMARY block first, header lines after it: headers still parsed,
    // and they do not leak into the summary.
    let (h, s) = parse_header_reply("SUMMARY: the file does X.\nIt also does Y.\n\n#1: first header\n#2: second header\n");
    assert_eq!(h.get(&1).map(|s| s.as_str()), Some("first header"));
    assert_eq!(h.get(&2).map(|s| s.as_str()), Some("second header"));
    assert_eq!(s.as_deref(), Some("the file does X.\nIt also does Y."));
}

#[test]
fn a_success_resets_the_consecutive_failure_count() {
    let mut budget = Budget::new(100);
    for _ in 0..MAX_CONSECUTIVE_FAILURES - 1 {
        budget.record(Some("timeout"));
    }
    budget.record(None);
    for _ in 0..MAX_CONSECUTIVE_FAILURES - 1 {
        budget.record(Some("timeout"));
    }
    assert!(budget.remaining());
    budget.record(Some("timeout"));
    assert!(!budget.remaining());
    assert_eq!(budget.failed(), 2 * MAX_CONSECUTIVE_FAILURES - 1);
}

#[test]
fn path_prefix_without_project_is_rejected() {
    let all = vec![project(1, "proj")];
    let mut o = opts();
    o.path_prefix = Some("src".to_string());
    assert!(selected_projects(&all, &o).unwrap_err().message().contains("--project"));
}

#[test]
fn history_only_without_project_is_rejected() {
    let all = vec![project(1, "proj")];
    let mut o = opts();
    o.history_only = true;
    assert!(selected_projects(&all, &o).unwrap_err().message().contains("--project"));
}

#[test]
fn history_only_combined_with_path_prefix_is_rejected() {
    let all = vec![project(1, "proj")];
    let mut o = opts();
    o.project = Some("proj".to_string());
    o.history_only = true;
    o.path_prefix = Some("src".to_string());
    assert!(selected_projects(&all, &o).unwrap_err().message().contains("--path-prefix"));
}

#[test]
fn an_unknown_project_name_is_an_error_not_an_empty_run() {
    let all = vec![project(1, "proj")];
    let mut o = opts();
    o.project = Some("nope".to_string());
    assert!(selected_projects(&all, &o).unwrap_err().message().contains("nope"));
    assert!(filter_projects(&all, Some("nope")).unwrap_err().message().contains("nope"));
}

#[test]
fn build_header_prompt_lists_chunks_with_dash_for_no_symbol() {
    let chunks = vec![
        ChunkMeta { id: 1, symbol: Some("foo".to_string()), kind: "function".to_string(), start_line: 1, end_line: 3, text: String::new() },
        ChunkMeta { id: 2, symbol: None, kind: "preamble".to_string(), start_line: 4, end_line: 5, text: String::new() },
    ];
    let prompt = build_header_prompt("proj", "src/a.rs", "fn foo() {}\n", &chunks);
    assert!(prompt.contains("Project: proj\nFile: src/a.rs"));
    assert!(prompt.contains("#1 function foo lines 1-3"));
    assert!(prompt.contains("#2 preamble - lines 4-5"));
    assert!(prompt.contains("Then a line \"SUMMARY:\""), "the combined prompt must ask for a summary too");
}


#[test]
fn default_options_select_every_project_with_the_default_budget() {
    let o = IndexOptions::default();
    assert_eq!(o.budget, DEFAULT_BUDGET);
    assert!(o.project.is_none() && o.path_prefix.is_none() && !o.dry_run && !o.history_only);
    let all = vec![project(1, "a"), project(2, "b")];
    assert_eq!(selected_projects(&all, &o).unwrap().len(), 2);
    let mut one = opts();
    one.project = Some("b".to_string());
    assert_eq!(selected_projects(&all, &one).unwrap(), vec![project(2, "b")]);
}

#[test]
fn a_budget_is_spent_call_by_call() {
    let mut b = Budget::new(2);
    assert!(b.remaining() && !b.tripped());
    b.record(None);
    b.record(Some("boom"));
    assert!(!b.remaining());
    assert_eq!((b.used(), b.failed()), (2, 1));
    assert_eq!(b.last_error().as_deref(), Some("boom"));
    assert!(!Budget::new(0).remaining());
}

#[test]
fn a_prefix_matches_whole_components_with_or_without_its_slash() {
    for path in ["src/a.rs", "src", "srcs/a.rs", "lib/b.rs"] {
        assert_eq!(prefix_matcher(Some("src/"), path), prefix_matcher(Some("src"), path));
    }
    assert!(prefix_matcher(Some("src"), "src/a.rs") && !prefix_matcher(Some("src"), "srcs/a.rs"));
    assert!(prefix_matcher(None, "anything"));
}

#[test]
fn a_prefix_without_files_is_named_without_its_slash() {
    let tree = vec![in_tree("src/a.rs", "1")];
    let err = compute_changes(&vec![], &tree, &vec![], Some("nope/")).unwrap_err().message();
    assert_eq!(err, "--path-prefix 'nope' matches no tracked files");
}

#[test]
fn a_prefix_with_nothing_new_under_it_has_no_changes() {
    let tree = vec![in_tree("src/a.rs", "1")];
    let c = compute_changes(&vec![row("src/a.rs", "1", "indexed")], &tree, &vec![], Some("src")).unwrap();
    assert!(c.add_or_modify.is_empty() && c.delete.is_empty() && c.moved.is_empty());
}

#[test]
fn changes_follow_blobs_and_renames() {
    let rows = vec![
        row("same.rs", "1", "indexed"),
        row("edited.rs", "2", "indexed"),
        row("z-gone.rs", "3", "indexed"),
        row("a-gone.rs", "4", "indexed"),
        row("old.rs", "5", "indexed"),
    ];
    let tree = vec![in_tree("same.rs", "1"), in_tree("edited.rs", "2b"), in_tree("new.rs", "5"), in_tree("added.rs", "6")];
    let renames = vec![("old.rs".to_string(), "new.rs".to_string()), ("same.rs".to_string(), "added.rs".to_string())];
    let c = compute_changes(&rows, &tree, &renames, None).unwrap();
    assert_eq!(c.add_or_modify, vec![in_tree("edited.rs", "2b"), in_tree("added.rs", "6")]);
    assert_eq!(c.delete, strings(&["a-gone.rs", "z-gone.rs"]));
    assert_eq!(c.moved, vec![("old.rs".to_string(), "new.rs".to_string())]);
}

#[test]
fn an_index_that_mirrors_the_tree_asks_for_nothing() {
    let tree = vec![in_tree("a", "1"), in_tree("b/c", "2")];
    let rows = vec![row("b/c", "2", "dirty"), row("a", "1", "skipped")];
    let c = compute_changes(&rows, &tree, &vec![("a".to_string(), "b/c".to_string())], None).unwrap();
    assert!(c.add_or_modify.is_empty() && c.delete.is_empty() && c.moved.is_empty());
}

#[test]
fn a_rename_counts_under_a_prefix_at_either_end() {
    let rows = vec![row("old/x.rs", "1", "indexed")];
    let tree = vec![in_tree("new/x.rs", "1"), in_tree("old/y.rs", "2")];
    let renames = vec![("old/x.rs".to_string(), "new/x.rs".to_string())];
    for prefix in ["old", "new"] {
        assert_eq!(compute_changes(&rows, &tree, &renames, Some(prefix)).unwrap().moved.len(), 1);
    }
}

#[test]
fn only_product_tests_and_docs_are_in_scope() {
    let scopes = vec![scope_row("vendor", "vendored"), scope_row("gen", "generated"), scope_row("t", "tests")];
    let files = vec![in_tree("vendor/a", "1"), in_tree("gen/b", "2"), in_tree("t/c", "3"), in_tree("d", "4")];
    assert_eq!(filter_in_scope(&scopes, &files), vec![in_tree("t/c", "3"), in_tree("d", "4")]);
}

#[test]
fn top_level_dirs_are_sorted_and_listed_once() {
    let tree = vec![in_tree("src/b/x", "1"), in_tree("docs/a", "2"), in_tree("src/c", "3"), in_tree("root.rs", "4")];
    assert_eq!(top_level_dirs(&tree), strings(&["docs", "src"]));
    assert_eq!((parent_dir("a/b/c").as_str(), parent_dir("a").as_str()), ("a/b", ""));
}

#[test]
fn recategorized_files_leave_with_their_summaries_and_earn_vendored_memories() {
    let scopes = vec![scope_row("vendor", "vendored"), scope_row("gen", "generated")];
    let paths = strings(&["src/a.rs", "vendor/x/y.c", "gen/b.rs"]);
    let r = cleanup_recategorized_files(&paths, &scopes, None);
    assert_eq!(r.removed, strings(&["vendor/x/y.c", "gen/b.rs"]));
    assert_eq!(r.stale, strings(&["/", "gen/", "vendor/", "vendor/x/"]));
    assert_eq!(r.vendored_dirs, strings(&["vendor"]));
    let ws = shown(&recategorized_writes("proj", r));
    assert_eq!(ws[0], "DeleteFile(\"vendor/x/y.c\")");
    assert_eq!(ws[6], "MarkStale([\"/\", \"gen/\", \"vendor/\", \"vendor/x/\"])");
    assert_eq!(
        ws[7],
        "PutMemoryOnce(\"code-index:proj:vendored:vendor\", \"proj vendors third-party code under vendor\")"
    );
    assert_eq!(cleanup_recategorized_files(&paths, &scopes, Some("src")).removed.len(), 0);
}

#[test]
fn secret_rows_are_swept_once_each() {
    let token = format!("{}{}", "gh".to_string() + "p_", "a".repeat(36));
    let rows = vec![row("a.pem", "1", "indexed"), row("b.rs", "2", "indexed"), row("c.rs", "3", "skipped")];
    let chunks = vec![
        ("b.rs".to_string(), token.clone()),
        ("b.rs".to_string(), token.clone()),
        ("a.pem".to_string(), token.clone()),
        ("c.rs".to_string(), token.clone()),
        ("unknown.rs".to_string(), token),
    ];
    let hits = sweep_secret_rows(&rows, &chunks, None);
    let seen: Vec<(&str, &str, &str)> = hits.iter().map(|h| (h.path.as_str(), h.blob.as_str(), h.reason)).collect();
    assert_eq!(seen, vec![("a.pem", "1", "secret-path(*.pem)"), ("b.rs", "2", "secret-content(github-token)")]);
    assert_eq!(sweep_secret_rows(&rows, &chunks, Some("other")).len(), 0);
}

#[test]
fn deletions_and_cross_directory_moves_stale_the_summaries_above() {
    let rows = vec![row("a/b/x.rs", "1", "indexed"), row("c/y.rs", "2", "indexed"), row("c/w.rs", "3", "indexed")];
    let tree = vec![in_tree("d/y.rs", "2"), in_tree("c/z.rs", "3")];
    let renames = vec![("c/y.rs".to_string(), "d/y.rs".to_string()), ("c/w.rs".to_string(), "c/z.rs".to_string())];
    let c = compute_changes(&rows, &tree, &renames, None).unwrap();
    assert_eq!(
        shown(&change_writes(&c)),
        strings(&[
            "DeleteFile(\"a/b/x.rs\")",
            "DeleteSymbols(\"a/b/x.rs\")",
            "DeleteSummary(\"a/b/x.rs\")",
            "MarkStale([\"a/\", \"a/b/\", \"/\"])",
            "MoveRows(\"c/y.rs\", \"d/y.rs\")",
            "MoveSymbols(\"c/y.rs\", \"d/y.rs\")",
            "MarkStale([\"/\", \"c/\", \"d/\"])",
            "MoveRows(\"c/w.rs\", \"c/z.rs\")",
            "MoveSymbols(\"c/w.rs\", \"c/z.rs\")",
        ])
    );
}

#[test]
fn a_skipped_file_leaves_nothing_derived_from_it() {
    assert_eq!(
        shown(&mark_skipped("proj", "a/x.rs", "b1", "secret-content(jwt)", true)),
        strings(&[
            "ClearChunks(\"a/x.rs\")",
            "DeleteSymbols(\"a/x.rs\")",
            "PutSkipped(\"a/x.rs\", \"b1\", \"secret-content(jwt)\")",
            "DeleteSummary(\"a/x.rs\")",
            "EmptySummary(\"a/\")",
            "InvalidateSource(\"code-index:proj:a/\")",
            "EmptySummary(\"/\")",
            "InvalidateSource(\"code-index:proj:/\")",
            "MarkStale([\"a/\", \"/\"])",
        ])
    );
    assert_eq!(mark_skipped("proj", "x.rs", "b1", "r", false).len(), 5);
}

#[test]
fn a_header_reply_finishes_the_file_with_or_without_a_summary() {
    let chunks = vec![chunk(7, "function", "fn a() {}"), chunk(8, "window", "rest")];
    let with = shown(&header_reply_writes("s/a.rs", "b", &chunks, "#2: second\nSUMMARY: it works", 100));
    assert_eq!(
        with,
        strings(&[
            "SetHeader(8, \"second\")",
            "EmbedChunk(7, \"\\nfn a() {}\\nfn a() {}\")",
            "EmbedChunk(8, \"second\\nrest\\nrest\")",
            "PutSummary(\"s/a.rs\", \"it works\", \"b\")",
            "EmbedSummary(\"s/a.rs\", \"it works\")",
            "MarkStale([\"s/\", \"/\"])",
            "SetStatus(\"s/a.rs\", \"indexed\")",
        ])
    );
    let without = shown(&header_reply_writes("s/a.rs", "b", &vec![chunk(8, "window", "w")], "#1: h", 100));
    assert_eq!(without[2], "CountAttempt(\"s/a.rs\")");
    assert_eq!(without[3], "SetStatus(\"s/a.rs\", \"fallback\")");
}

#[test]
fn a_file_is_given_up_on_after_its_second_reply_without_a_summary() {
    assert!(record_unparseable_summary("a/x.rs", 1, true).is_empty());
    assert_eq!(
        shown(&record_unparseable_summary("a/x.rs", 2, true)),
        strings(&["DeleteSummary(\"a/x.rs\")", "MarkStale([\"a/\", \"/\"])"])
    );
    assert_eq!(shown(&record_unparseable_summary("a/x.rs", 3, false)), strings(&["MarkStale([\"a/\", \"/\"])"]));
    assert_eq!(shown(&summary_reply_writes("x", "b", "nothing here")), strings(&["CountAttempt(\"x\")"]));
    assert_eq!(summary_reply_writes("x", "b", "SUMMARY: s").len(), 3);
}

#[test]
fn a_dirty_file_is_settled_or_asked_about() {
    let chunks = vec![chunk(1, "function", "fn a() {}")];
    match finalize_dirty_file("p", "a.rs", "b", "", &vec![], false) {
        HeaderStep::Settled(ws) => assert_eq!(shown(&ws), strings(&["SetStatus(\"a.rs\", \"indexed\")"])),
        HeaderStep::Ask(_) => panic!("no chunks, no call"),
    }
    match finalize_dirty_file("p", "a.pem", "b", "text", &chunks, false) {
        HeaderStep::Settled(ws) => assert_eq!(shown(&ws)[2], "PutSkipped(\"a.pem\", \"b\", \"secret-path(*.pem)\")"),
        HeaderStep::Ask(_) => panic!("a secret is never sent"),
    }
    match finalize_dirty_file("p", "a.rs", "b", "fn a() {}", &chunks, false) {
        HeaderStep::Ask(prompt) => assert!(prompt.starts_with("Project: p\nFile: a.rs\n\nfn a() {}\n\nChunks:\n#1 ")),
        HeaderStep::Settled(_) => panic!("a clean file gets a call"),
    }
    assert!(matches!(admit_file("a.rs", "one\ntwo\n"), Admission::Chunk(2)));
    assert!(matches!(admit_file(".env", ""), Admission::Skip("secret-path(.env)")));
}

#[test]
fn a_long_file_is_cut_for_the_prompt_and_says_so() {
    let text = "\u{e9}".repeat(24_001);
    let (cut, truncated) = truncate_for_prompt(&text);
    assert_eq!((cut.chars().count(), truncated), (24_000, true));
    assert!(build_summary_prompt("p", "f", &text).contains("[... truncated at 24000 characters; file continues]"));
    assert!(!truncate_for_prompt(&"x".repeat(24_000)).1);
}

#[test]
fn the_summary_pass_asks_only_for_what_is_missing() {
    let b = Budget::new(1);
    let mut f = row("a.rs", "b1", "indexed");
    assert_eq!(run_summary_pass(&b, &f, None), SummaryStep::Ask);
    assert_eq!(run_summary_pass(&b, &f, Some("b0")), SummaryStep::Ask);
    assert_eq!(run_summary_pass(&b, &f, Some("b1")), SummaryStep::Pass);
    f.summary_attempts = 2;
    assert_eq!(run_summary_pass(&b, &f, None), SummaryStep::Pass);
    assert_eq!(run_summary_pass(&Budget::new(0), &f, None), SummaryStep::Stop);
    assert_eq!(summary_call("p", "x.key", "text"), None);
    assert!(summary_call("p", "x.rs", "text").unwrap().starts_with("Project: p\nFile: x.rs\n\ntext\n\nReply with"));
    let c = summary_candidates(&vec![row("b", "", "indexed"), row("z/q", "", "indexed")], &vec![row("a", "", "fallback")], None);
    assert_eq!(c.iter().map(|r| r.path.as_str()).collect::<Vec<&str>>(), vec!["a", "b", "z/q"]);
    assert_eq!(summary_candidates(&c, &vec![], Some("z/")).len(), 1);
}

#[test]
fn projects_with_a_smaller_backlog_run_first_and_ties_keep_their_order() {
    let v = vec![(3, project(1, "a")), (0, project(2, "b")), (3, project(3, "c")), (1, project(4, "d"))];
    let ids: Vec<i64> = order_runnable(&v).iter().map(|(_, p)| p.id).collect();
    assert_eq!(ids, vec![2, 4, 1, 3]);
}

#[test]
fn an_error_is_an_outcome_unless_the_run_has_a_prefix() {
    let mut outcomes: Vec<ProjectOutcome> = Vec::new();
    let boom = || KbError::Other("boom".to_string());
    assert!(record_result(&mut outcomes, "bad", Err(boom()), None).is_ok());
    assert!(record_result(&mut outcomes, "good", Ok(ProjectOutcome::not_a_repo("good")), None).is_ok());
    assert_eq!(outcomes[0].error.as_deref(), Some("boom"));
    assert_eq!(outcomes[1].skipped_reason.as_deref(), Some("not a git repo"));
    assert_eq!(record_result(&mut outcomes, "bad", Err(boom()), Some("src")).unwrap_err().message(), "boom");
    assert_eq!(outcomes.len(), 2);
}

#[test]
fn a_report_tells_how_the_budget_was_spent() {
    let mut b = Budget::new(5);
    for _ in 0..5 {
        b.record(Some("timeout"));
    }
    let mut o = opts();
    o.budget = 5;
    let r = index_report(vec![], &b, &o, true, 2, 3);
    assert!(r.budget_reached && r.stopped_on_failures && r.embedder_up);
    assert_eq!((r.calls_used, r.calls_failed, r.budget), (5, 5, 5));
    assert_eq!(r.last_error.as_deref(), Some("timeout"));
    assert_eq!((r.backfill_embedded, r.backfill_summaries_embedded), (2, 3));
}

#[test]
fn a_plan_counts_each_pending_file_once() {
    let rows = vec![row("gone.rs", "1", "indexed")];
    let tree = vec![in_tree("a.rs", "1"), in_tree("b.rs", "2"), in_tree("k.pem", "3")];
    let c = compute_changes(&rows, &tree, &vec![], None).unwrap();
    let p = plan_project("proj", &c.add_or_modify, &c, true, &strings(&["b.rs", "z.rs"]), 2, 3);
    assert_eq!((p.files_to_index, p.files_to_delete, p.files_moved), (2, 1, 0));
    assert_eq!(p.calls_needed, 1 + 3 + 3 + 2);
    assert_eq!(plan_not_a_repo("p").skipped_reason.as_deref(), Some("not a git repo"));
    assert_eq!(plan_history("p", 4).calls_needed, 4);
}

#[test]
fn stale_modules_are_counted_by_prefix() {
    let paths = strings(&["a/", "a/b/", "ab/", "/", "a/x.rs"]);
    assert_eq!(stale_module_count(&paths, None), 4);
    assert_eq!(stale_module_count(&paths, Some("a/")), 2);
    assert_eq!(stale_module_count(&paths, Some("a/b")), 1);
}

#[test]
fn backfills_keep_to_their_project_and_their_limit() {
    let u = |id: i64, project_id: i64| Unembedded { id, project_id, header: None, text: format!("t{}", id) };
    let rows = vec![u(1, 1), u(2, 2), u(3, 1), u(4, 1)];
    let all = backfill_embeddings(&rows, None, 2, 100);
    assert_eq!(all, vec![(1, "\nt1\nt1".to_string()), (2, "\nt2\nt2".to_string())]);
    let ids: Vec<i64> = backfill_embeddings(&rows, Some(&vec![1]), 2, 100).iter().map(|x| x.0).collect();
    assert_eq!(ids, vec![1, 3]);
    let mut o = opts();
    assert_eq!((backfill_scope(&o, &vec![5, 6]), summary_backfill_scope(&o, &vec![5, 6])), (None, None));
    o.project = Some("p".to_string());
    assert_eq!((backfill_scope(&o, &vec![5, 6]), summary_backfill_scope(&o, &vec![5, 6])), (Some(vec![5, 6]), Some(5)));
    assert_eq!(backfill_symbols(0, None, "x"), BackfillStep::Stop);
    assert_eq!(backfill_symbols(1, Some("a"), "b/x"), BackfillStep::Pass);
    assert_eq!(backfill_symbols(1, Some("a"), "a/x"), BackfillStep::Extract);
    assert_eq!(skipped_total(&vec![("a".to_string(), 2), ("b".to_string(), 3)]), 5);
}

fn run_through(run: &mut ProjectRun, budget: &mut Budget, needs_scope: bool, dirty_left: usize) -> Vec<Stage> {
    let mut seen: Vec<Stage> = Vec::new();
    for _ in 0..20 {
        let stage = run.stage;
        seen.push(stage);
        let event = match stage {
            Stage::CheckScope => Event::ScopeChecked { needed: needs_scope },
            Stage::RunScope => Event::ScopeRan { failed: false },
            Stage::ApplyChanges => Event::ChangesApplied { deleted: 1, moved: 2, swept: 3 },
            Stage::ChunkFiles => Event::FilesChunked { chunked: 4, secret: 5 },
            Stage::BackfillSymbols => Event::SymbolsBackfilled { files: 0 },
            Stage::ResolveAllEdges | Stage::ResolveNewEdges => Event::EdgesResolved { examined: 6 },
            Stage::FinalizeFiles => {
                budget.record(Some("timeout"));
                Event::FilesFinalized { attempted: 7 }
            }
            Stage::SummarizeFiles => Event::FilesSummarized { attempted: 8 },
            Stage::SummarizeModules => Event::ModulesSummarized { attempted: 9, pruned: 10 },
            Stage::SummarizeMonths => Event::MonthsSummarized { attempted: 11 },
            Stage::CountDirty => Event::DirtyCounted { files: dirty_left },
            Stage::AdvanceHead => Event::HeadAdvanced,
            Stage::CountTotals => Event::TotalsCounted { symbols: 12, edges: 13 },
            Stage::Finish(_) => return seen,
        };
        run.advance(event, budget);
    }
    panic!("the run does not end: {:?}", seen);
}

#[test]
fn a_full_run_goes_through_every_stage_and_advances_the_head() {
    let mut b = Budget::new(100);
    let mut run = ProjectRun::start(true, false, false, true, &b);
    let seen = run_through(&mut run, &mut b, true, 0);
    assert_eq!(seen.len(), 14);
    assert!(seen.contains(&Stage::RunScope) && seen.contains(&Stage::ResolveAllEdges));
    let o = ProjectOutcome::of_run("p", &run).unwrap();
    assert!(o.scope_ran && o.head_advanced && o.skipped_reason.is_none());
    assert_eq!((o.files_deleted, o.files_moved, o.files_skipped_secret, o.files_chunked), (1, 2, 8, 4));
    assert_eq!((o.headers_attempted, o.headers_failed, o.summaries_failed, o.modules_failed), (7, 1, 0, 0));
    assert_eq!((o.months_summarized, o.symbols_total, o.edges_total, o.edges_examined), (11, 12, 13, 6));
    assert_eq!(b.used(), 2, "the scope call and the failed header call");
}

#[test]
fn a_prefix_run_goes_past_the_stages_of_a_full_one() {
    let mut b = Budget::new(100);
    let mut run = ProjectRun::start(true, false, true, false, &b);
    let seen = run_through(&mut run, &mut b, false, 0);
    assert!(!seen.contains(&Stage::AdvanceHead) && !seen.contains(&Stage::SummarizeMonths));
    assert!(seen.contains(&Stage::ResolveNewEdges));
    assert!(!ProjectOutcome::of_run("p", &run).unwrap().head_advanced);
}

#[test]
fn a_prefix_run_counts_no_months() {
    let mut b = Budget::new(100);
    let mut run = ProjectRun::start(true, false, true, false, &b);
    run_through(&mut run, &mut b, false, 0);
    assert_eq!(run.counts.months_summarized, 0);
}

#[test]
fn without_an_embedder_no_stage_that_calls_is_entered() {
    let mut b = Budget::new(100);
    let mut run = ProjectRun::start(false, false, false, false, &b);
    let seen = run_through(&mut run, &mut b, false, 2);
    for s in [Stage::FinalizeFiles, Stage::SummarizeFiles, Stage::SummarizeModules, Stage::SummarizeMonths, Stage::AdvanceHead] {
        assert!(!seen.contains(&s), "{:?}", s);
    }
    assert_eq!(b.used(), 0);
}

#[test]
fn a_history_run_has_its_own_stages() {
    let mut b = Budget::new(100);
    let mut run = ProjectRun::start(true, true, false, false, &b);
    let seen = run_through(&mut run, &mut b, false, 0);
    assert_eq!(seen, vec![Stage::SummarizeMonths, Stage::CountTotals, Stage::Finish(Ending::Done)]);
    let mut down = ProjectRun::start(false, true, false, false, &b);
    assert_eq!(run_through(&mut down, &mut b, false, 0), vec![Stage::CountTotals, Stage::Finish(Ending::Done)]);
    assert_eq!((down.counts.symbols_total, down.counts.edges_total), (12, 13));
}

#[test]
fn a_scope_pass_that_fails_or_cannot_be_paid_ends_the_run() {
    let mut b = Budget::new(100);
    let mut run = ProjectRun::start(true, false, false, true, &b);
    run.advance(Event::ScopeChecked { needed: true }, &mut b);
    run.advance(Event::ScopeRan { failed: true }, &mut b);
    let o = ProjectOutcome::of_run("p", &run).unwrap();
    assert_eq!(o.skipped_reason.as_deref(), Some("scope pass LLM call failed; retried next run"));
    assert!(o.scope_ran && o.files_chunked == 0);
    assert_eq!((b.used(), b.failed()), (1, 1));
    assert_eq!(b.last_error().as_deref(), Some("scope pass call failed"));

    let mut spent = Budget::new(0);
    let mut run = ProjectRun::start(true, false, false, true, &spent);
    run.advance(Event::ScopeChecked { needed: true }, &mut spent);
    let o = ProjectOutcome::of_run("p", &run).unwrap();
    assert_eq!(o.skipped_reason.as_deref(), Some("scope pass needed but budget spent; resumes next run"));
    assert_eq!(spent.used(), 0);
}

#[test]
fn a_report_of_another_stage_changes_nothing() {
    let mut b = Budget::new(1);
    let mut run = ProjectRun::start(true, false, false, true, &b);
    let before = run;
    run.advance(Event::HeadAdvanced, &mut b);
    run.advance(Event::ScopeRan { failed: true }, &mut b);
    assert_eq!(run, before);
    assert_eq!(b.used(), 0);
    assert!(ProjectOutcome::of_run("p", &run).is_none());
}
