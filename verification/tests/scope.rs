use kb::code_index::rows::{DirStat, ScopeRow, TrackedFile};
use kb::code_index::scope::{
    build_scope_prompt, category_for, collect_readme_license_excerpts, effective_category, guard_files,
    is_license_or_readme, needs_scope, owning_dir, parse_scope_reply, prune_stale_scope_rows, readme_license_paths,
    run_scope_pass, validate_user_scope_set, write_vendored_memory, Category, ScopePass,
};

fn scope_row(project_id: i64, dir: &str, category: &str, source: &str) -> ScopeRow {
    ScopeRow {
        project_id,
        dir: dir.to_string(),
        category: category.to_string(),
        source: source.to_string(),
        decided_at: "2026-09-23T00:00:00Z".to_string(),
    }
}

fn stat(dir: &str) -> DirStat {
    DirStat {
        dir: dir.to_string(),
        files: 2,
        lines: 30,
        commits: 4,
        authors: vec!["ann".to_string(), "bob".to_string()],
        first_added: "2026-01-02".to_string(),
    }
}

/// A store in memory that keeps what a scope pass comes to.
#[derive(Default)]
struct ScopeStore {
    rows: Vec<ScopeRow>,
    memories: Vec<(String, String)>,
}

impl ScopeStore {
    fn keep(&mut self, pass: ScopePass) {
        for (dir, category) in pass.rows {
            if self.rows.iter().any(|r| r.dir == dir && r.source == "user") {
                continue;
            }
            self.rows.retain(|r| r.dir != dir);
            self.rows.push(scope_row(1, &dir, category.as_str(), "llm"));
        }
        for m in pass.memories {
            if self.count(&m.source) == 0 {
                self.memories.push((m.source, m.content));
            }
        }
    }

    fn row(&self, dir: &str) -> &ScopeRow {
        self.rows.iter().find(|r| r.dir == dir).unwrap()
    }

    fn count(&self, source: &str) -> usize {
        self.memories.iter().filter(|m| m.0 == source).count()
    }
}

/// The excerpts that a repository's files, given as path and text, come to.
fn excerpts(repo: &[(String, String)]) -> Vec<(String, String)> {
    let paths: Vec<String> = repo.iter().map(|f| f.0.clone()).collect();
    let docs: Vec<(String, String)> = readme_license_paths(&paths)
        .into_iter()
        .map(|p| repo.iter().find(|f| f.0 == p).unwrap().clone())
        .collect();
    collect_readme_license_excerpts(&docs)
}

fn in_tree(path: &str, blob: &str) -> TrackedFile {
    TrackedFile { path: path.to_string(), blob: blob.to_string() }
}

#[test]
fn category_for_uses_the_longest_matching_directory_prefix() {
    let rows = vec![
        scope_row(1, "src", "product", "llm"),
        scope_row(1, "src/vendor", "vendored", "llm"),
    ];
    assert_eq!(category_for(&rows, "src/vendor/curl.c"), Category::Vendored);
    assert_eq!(category_for(&rows, "src/main.rs"), Category::Product);
}

#[test]
fn category_for_does_not_treat_a_sibling_with_a_shared_prefix_as_a_match() {
    let rows = vec![scope_row(1, "src/vendor", "vendored", "llm")];
    // "src/vendored" shares the literal prefix "src/vendor" but is a
    // different directory -- must not be misclassified as vendored.
    assert_eq!(category_for(&rows, "src/vendored/other.c"), Category::Product);
    assert_eq!(category_for(&rows, "src/vendor"), Category::Vendored, "an exact dir match must also work");
}

#[test]
fn category_for_defaults_to_product_when_nothing_matches() {
    let rows = vec![scope_row(1, "assets", "assets", "llm")];
    assert_eq!(category_for(&rows, "src/main.rs"), Category::Product);
    assert_eq!(category_for(&[], "anything.rs"), Category::Product);
}

#[test]
fn parse_scope_reply_reads_one_category_per_line() {
    let reply = "src: product\ntests: tests\ndocs: docs\n";
    let parsed = parse_scope_reply(reply);
    assert_eq!(parsed.get("src").unwrap().0, Category::Product);
    assert_eq!(parsed.get("tests").unwrap().0, Category::Tests);
    assert_eq!(parsed.get("docs").unwrap().0, Category::Docs);
}

#[test]
fn parse_scope_reply_captures_the_optional_vendored_description() {
    let reply = "third_party/curl: vendored \u{2014} the curl HTTP client\n";
    let parsed = parse_scope_reply(reply);
    let (category, what) = parsed.get("third_party/curl").unwrap();
    assert_eq!(*category, Category::Vendored);
    assert_eq!(what.as_deref(), Some("the curl HTTP client"));
}

#[test]
fn parse_scope_reply_ignores_garbage_lines() {
    let reply = "not a valid line at all\n\
                 src: product\n\
                 : missing dir\n\
                 weird: not_a_real_category\n\
                 \n\
                 docs: docs\n";
    let parsed = parse_scope_reply(reply);
    assert_eq!(parsed.len(), 2, "{:?}", parsed);
    assert_eq!(parsed.get("src").unwrap().0, Category::Product);
    assert_eq!(parsed.get("docs").unwrap().0, Category::Docs);
    assert!(!parsed.contains_key("weird"), "an unrecognized category token drops the whole line");
}

#[test]
fn parse_scope_reply_is_case_insensitive_and_trims_whitespace() {
    let reply = "  src  :   PRODUCT   \n";
    let parsed = parse_scope_reply(reply);
    assert_eq!(parsed.get("src").unwrap().0, Category::Product);
}

#[test]
fn validate_user_scope_set_requires_a_tracked_dir_and_a_known_category() {
    let in_tree = vec![TrackedFile { path: "src/sub/a.rs".to_string(), blob: "1".repeat(40) }];
    assert_eq!(validate_user_scope_set(&in_tree, "src", "vendored").unwrap(), ("src".to_string(), Category::Vendored));
    assert_eq!(validate_user_scope_set(&in_tree, "src/sub/", "Build-Output").unwrap().0, "src/sub");
    assert!(validate_user_scope_set(&in_tree, "nope", "product").unwrap_err().message().contains("nope"));
    assert!(validate_user_scope_set(&in_tree, "src/sub/a.rs", "product").is_err(), "a file is not a directory");
    assert!(validate_user_scope_set(&in_tree, "sr", "product").is_err(), "a string prefix is not a directory");
    assert!(validate_user_scope_set(&in_tree, "src", "vendor").unwrap_err().message().contains("vendor"));
}


#[test]
fn a_category_reads_back_from_its_own_token() {
    for c in [
        Category::Product,
        Category::Tests,
        Category::Docs,
        Category::Vendored,
        Category::Generated,
        Category::Assets,
        Category::BuildOutput,
    ] {
        assert_eq!(Category::parse(c.as_str()), Some(c));
        assert_eq!(Category::parse(&format!("  {}\t", c.as_str().to_uppercase())), Some(c));
    }
    assert_eq!(Category::parse("build_output"), Some(Category::BuildOutput));
    assert_eq!(Category::parse("BuildOutput"), Some(Category::BuildOutput));
    assert_eq!(Category::parse("vendor"), None);
}

#[test]
fn the_deciding_directory_is_the_longest_and_the_first_of_its_length() {
    let rows = vec![scope_row(1, "a", "tests", "llm"), scope_row(1, "a/b", "docs", "llm"), scope_row(1, "a/b", "assets", "user")];
    assert_eq!(category_for(&rows, "a/b/c"), Category::Docs);
    assert_eq!(owning_dir(&rows, "a/b/c"), Some("a/b".to_string()));
    assert_eq!(owning_dir(&rows, "ab"), None);
    assert_eq!(category_for(&[scope_row(1, "a", "no such", "llm")], "a/x"), Category::Product);
}

#[test]
fn guard_files_drops_ignored_paths_and_binary_blobs() {
    let files = vec![in_tree("a", "1"), in_tree("b", "2"), in_tree("c", "3")];
    let kept = guard_files(&files, &vec!["a".to_string()], &vec!["3".to_string()]);
    assert_eq!(kept, vec![in_tree("b", "2")]);
}

#[test]
fn guard_files_of_an_all_clean_tree_keeps_everything() {
    let files = vec![in_tree("a.txt", &"1".repeat(40)), in_tree("dir/b.txt", &"2".repeat(40))];
    let guarded = guard_files(&files, &vec![], &vec![]);
    assert_eq!(guarded.len(), 2);
    assert_eq!(guarded, files);
}

#[test]
fn needs_scope_is_true_when_no_scope_rows_exist_yet() {
    assert!(needs_scope(&vec![], &vec!["src".to_string()]));
}

#[test]
fn needs_scope_is_true_when_the_top_level_directory_set_changed() {
    let rows = vec![scope_row(1, "src", "product", "llm"), scope_row(1, "src/sub", "product", "llm")];
    assert!(!needs_scope(&rows, &vec!["src".to_string()]), "same top-level set -- no re-scope needed");
    let grown = vec!["docs".to_string(), "src".to_string()];
    assert!(needs_scope(&rows, &grown), "a new top-level directory must trigger a re-scope");
}

#[test]
fn needs_scope_is_false_when_a_top_level_directory_merely_disappeared() {
    let rows = vec![scope_row(1, "src", "product", "llm"), scope_row(1, "old", "product", "llm")];
    let shrunk = vec!["src".to_string()];
    assert!(!needs_scope(&rows, &shrunk), "losing a directory is not a reason to spend a sonnet call");
}

#[test]
fn prune_stale_scope_rows_deletes_llm_rows_for_vanished_dirs_but_keeps_user_rows() {
    let rows = vec![
        scope_row(1, "src", "product", "llm"),
        scope_row(1, "src/sub", "product", "llm"),
        scope_row(1, "src/gone", "generated", "llm"),
        scope_row(1, "old", "product", "llm"),
        scope_row(1, "vendor", "vendored", "user"),
    ];
    let tree = vec![in_tree("src/a.rs", &"1".repeat(40)), in_tree("src/sub/b.rs", &"2".repeat(40))];
    let removed = prune_stale_scope_rows(&rows, &tree);
    assert_eq!(removed.len(), 2);
    let mut dirs: Vec<String> = rows.iter().map(|r| r.dir.clone()).filter(|d| !removed.contains(d)).collect();
    dirs.sort();
    assert_eq!(dirs, vec!["src".to_string(), "src/sub".to_string(), "vendor".to_string()]);
}

#[test]
fn run_scope_pass_stores_llm_categories_and_defaults_unmentioned_dirs_to_product() {
    let mut store = ScopeStore::default();
    let pass = run_scope_pass(&vec![stat("src"), stat("tests")], Some("src: product\n"), &store.rows, "helios");
    assert!(!pass.failed);
    assert_eq!(pass.rows.len(), 2);
    store.keep(pass);
    assert_eq!(store.row("src").category, "product");
    assert_eq!(store.row("tests").category, "product", "an unmentioned directory defaults to product");
    assert!(store.rows.iter().all(|r| r.source == "llm"));
}

#[test]
fn run_scope_pass_never_lets_a_user_override_be_undone_by_a_re_run() {
    let mut store = ScopeStore::default();
    store.rows.push(scope_row(1, "third_party", "product", "user"));
    let reply = "src: product\nthird_party: vendored \u{2014} curl\n";
    let pass = run_scope_pass(&vec![stat("src"), stat("third_party")], Some(reply), &store.rows, "helios");
    store.keep(pass);
    let third_party = store.row("third_party");
    assert_eq!(third_party.category, "product", "the llm's vendored verdict must not clobber the user's override");
    assert_eq!(third_party.source, "user");
    assert_eq!(store.count("code-index:helios:vendored:third_party"), 0);
}

#[test]
fn run_scope_pass_writes_one_vendored_memory_and_never_duplicates_it_on_a_re_run() {
    let mut store = ScopeStore::default();
    let stats = vec![stat("src"), stat("third_party")];
    let reply = "src: product\nthird_party: vendored \u{2014} the curl HTTP client\n";
    for _ in 0..2 {
        let pass = run_scope_pass(&stats, Some(reply), &store.rows, "helios");
        store.keep(pass);
    }
    let source = "code-index:helios:vendored:third_party";
    assert_eq!(store.count(source), 1, "a second run must not duplicate the vendored memory");
    assert_eq!(store.memories[0].1, "helios vendors the curl HTTP client under third_party");
}

#[test]
fn run_scope_pass_falls_back_to_a_generic_description_when_the_reply_gives_none() {
    let mut store = ScopeStore::default();
    let pass = run_scope_pass(&vec![stat("third_party")], Some("third_party: vendored\n"), &store.rows, "helios");
    store.keep(pass);
    assert_eq!(store.memories[0].0, "code-index:helios:vendored:third_party");
    assert_eq!(store.memories[0].1, "helios vendors third-party code under third_party");
}

#[test]
fn collect_readme_license_excerpts_finds_files_anywhere_and_caps_at_40_lines() {
    let many_lines: String = (1..=50).map(|n| format!("line {}\n", n)).collect();
    let repo = vec![
        ("LICENSE".to_string(), "MIT License\nCopyright...\n".to_string()),
        ("docs/README.md".to_string(), many_lines),
        ("src/main.rs".to_string(), "fn main() {}\n".to_string()),
    ];
    let docs = excerpts(&repo);
    assert!(docs.iter().any(|d| d.0 == "LICENSE"));
    let readme = &docs.iter().find(|d| d.0 == "docs/README.md").expect("README below root must be found").1;
    assert_eq!(readme.lines().count(), 40, "excerpt must be capped at 40 lines");
    assert_eq!(readme.lines().next().unwrap(), "line 1");
}

#[test]
fn collect_readme_license_excerpts_drops_a_readme_that_carries_a_secret() {
    let token = format!("{}{}", "gh".to_string() + "p_", "a".repeat(36));
    let repo = vec![
        ("README.md".to_string(), format!("setup\nexport TOKEN={}\n", token)),
        ("docs/README.md".to_string(), "clean docs\n".to_string()),
    ];
    let docs = excerpts(&repo);
    let paths: Vec<&str> = docs.iter().map(|d| d.0.as_str()).collect();
    assert_eq!(paths, vec!["docs/README.md"]);
    assert!(docs.iter().all(|d| !d.1.contains(&token)));
    let prompt = build_scope_prompt(&vec![stat("docs")], &docs);
    assert!(!prompt.contains(&token), "the token must never reach the prompt");
}

#[test]
fn the_scope_prompt_lists_directories_and_excerpts() {
    let p = build_scope_prompt(&vec![stat("src")], &vec![("README".to_string(), "hello".to_string())]);
    assert!(p.contains("src: files=2 lines=30 commits=4 authors=ann,bob first_added=2026-01-02\n"));
    assert!(p.contains("\nLICENSE/README excerpts (first 40 lines each):\n\n--- README ---\nhello\n"));
    assert!(p.starts_with("You are scoping a code repository so a personal code index"));
    assert!(p.ends_with("<dir>: vendored \u{2014} <what>\n"));
    assert!(!build_scope_prompt(&vec![], &vec![]).contains("excerpts"));
}

#[test]
fn run_scope_pass_writes_nothing_when_the_llm_call_fails() {
    let mut store = ScopeStore::default();
    let pass = run_scope_pass(&vec![stat("src")], None, &store.rows, "helios");
    assert!(pass.failed);
    assert_eq!(pass.rows.len(), 0);
    store.keep(pass);
    assert!(store.rows.is_empty() && store.memories.is_empty());
}

#[test]
fn guard_files_removes_gitignored_and_binary_paths() {
    let png = "3".repeat(40);
    let files = vec![
        in_tree(".gitignore", &"1".repeat(40)),
        in_tree("assets/logo.png", &png),
        in_tree("src/main.rs", &"2".repeat(40)),
        in_tree("build.log", &"0".repeat(40)),
    ];
    let guarded = guard_files(&files, &vec!["build.log".to_string()], &vec![png]);
    let mut paths: Vec<&str> = guarded.iter().map(|f| f.path.as_str()).collect();
    paths.sort();
    assert_eq!(paths, vec![".gitignore", "src/main.rs"], "gitignored *.log and the binary png must both be dropped");
}

#[test]
fn a_nested_row_covers_its_top_level_directory() {
    assert!(needs_scope(&vec![], &vec![]));
    let rows = vec![scope_row(1, "docs/api", "docs", "llm")];
    assert!(!needs_scope(&rows, &vec!["docs".to_string()]));
}

#[test]
fn a_users_decision_is_the_one_in_effect() {
    let product = vec![scope_row(1, "third_party", "product", "user")];
    assert_eq!(effective_category(&product, "third_party", Category::Vendored), Category::Product);
    let vendored = vec![scope_row(1, "lib", "vendored", "user")];
    assert_eq!(run_scope_pass(&vec![stat("lib")], Some("lib: product\n"), &vendored, "proj").memories.len(), 1);
    assert_eq!(write_vendored_memory("p", "d", Some("w")).content, "p vendors w under d");
    assert!(!run_scope_pass(&vec![stat("src")], Some(""), &vec![], "proj").failed);
}

#[test]
fn readmes_and_licenses_are_found_by_name_and_dropped_by_path() {
    let paths = vec!["src/a.rs".to_string(), "lib/README.md".to_string(), "LICENSE".to_string(), "x/licence.txt".to_string()];
    assert_eq!(
        readme_license_paths(&paths),
        vec!["LICENSE".to_string(), "lib/README.md".to_string(), "x/licence.txt".to_string()]
    );
    assert!(is_license_or_readme("a/b/Readme") && !is_license_or_readme("readme/main.rs"));
    let docs = collect_readme_license_excerpts(&vec![
        ("secrets/README.md".to_string(), "plain".to_string()),
        ("LICENSE".to_string(), "MIT".to_string()),
    ]);
    assert_eq!(docs, vec![("LICENSE".to_string(), "MIT".to_string())]);
}
