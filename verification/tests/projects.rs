use kb::projects::{
    build_card, commit_count, drift_state, entry_point_names, fingerprint_for, git_output, manifest_name,
    manifest_names, name_in_package, normalize_name, test_command, CardFacts, DriftState, Fingerprint, CARD_MAX_CHARS,
    PROJECT_DRIFT_COMMITS,
};

fn strings(v: &[&str]) -> Vec<String> {
    v.iter().map(|s| s.to_string()).collect()
}

fn bare(root: &str) -> CardFacts {
    CardFacts {
        root: root.to_string(),
        remote: None,
        branch: None,
        fingerprint: Fingerprint::Path(root.to_string()),
        dirs: vec![],
        files: vec![],
        cargo_toml: None,
        package_json: None,
        go_mod: None,
    }
}

fn fixture() -> CardFacts {
    let mut f = bare("/tmp/mach-card");
    f.dirs = strings(&["src", "tests"]);
    f.files = strings(&["Cargo.toml", "Makefile", "src/main.rs"]);
    f.cargo_toml = Some("[package]\nname = \"fixture\"\nversion = \"0.2.0\"\n".to_string());
    f
}

#[test]
fn normalize_name_lowercases_the_basename() {
    // The live bug this fixes: ~/programming/Expedite tagged sessions
    // "Expedite" while 28 index rows sat under "expedite".
    assert_eq!(normalize_name("/home/x/programming/Expedite"), "expedite");
    assert_eq!(normalize_name("/home/x/programming/LOD_Remake"), "lod_remake");
    assert_eq!(normalize_name("/home/x/programming/umoja/"), "umoja");
}

#[test]
fn a_name_lowercases_beyond_ascii() {
    assert_eq!(normalize_name("/x/\u{c9}T\u{c9}"), "\u{e9}t\u{e9}");
    assert_eq!(normalize_name("/x/\u{130}b"), "i\u{307}b");
}

#[test]
fn a_non_git_directory_falls_back_to_a_path_fingerprint() {
    let fp = fingerprint_for("/tmp/nogit", None, false);
    assert!(matches!(fp, Fingerprint::Path(_)), "no git means no root commit: {:?}", fp);
    assert!(fp.key().starts_with("path:"));
}

#[test]
fn a_git_directory_fingerprints_to_its_head_and_counts_commits() {
    let out = git_output(true, "0123abcd\n");
    let fp = fingerprint_for("/r", out.as_deref(), true);
    assert_eq!(fp, Fingerprint::GitRoot("0123abcd".to_string()));
    assert_eq!(commit_count(git_output(true, "1\n").as_deref()), Some(1));
    assert_eq!(commit_count(git_output(true, "2\n").as_deref()), Some(2));
    assert_eq!(commit_count(git_output(false, "2\n").as_deref()), None);
    assert_eq!(commit_count(Some("many")), None);
    assert_eq!(fingerprint_for("/r", out.as_deref(), true), fp);
    assert_eq!(git_output(true, " \n"), None);
}

#[test]
fn a_subdirectory_of_a_git_repo_fingerprints_as_its_own_path_not_the_repos_root_commit() {
    assert!(matches!(fingerprint_for("/repo", Some("0123"), true), Fingerprint::GitRoot(_)));
    assert_eq!(fingerprint_for("/repo/sub_a", Some("0123"), false), Fingerprint::Path("/repo/sub_a".to_string()));
}

#[test]
fn fingerprints_of_both_kinds_have_different_keys() {
    assert_ne!(Fingerprint::GitRoot("x".to_string()).key(), Fingerprint::Path("x".to_string()).key());
    assert_eq!(Fingerprint::GitRoot("x".to_string()).key(), "git:x");
}

#[test]
fn drift_is_flagged_by_commits_or_by_days_whichever_trips() {
    assert_eq!(drift_state(None, Some(10), false, false), DriftState::NeverIndexed);
    assert_eq!(drift_state(Some(100), Some(105), true, false), DriftState::Fresh);
    let by_commits = drift_state(Some(100), Some(100 + PROJECT_DRIFT_COMMITS as i64), true, false);
    assert!(matches!(by_commits, DriftState::Drifted { commits } if commits == PROJECT_DRIFT_COMMITS as i64));
    assert!(matches!(drift_state(None, None, true, true), DriftState::Drifted { .. }));
    assert_eq!(drift_state(Some(105), Some(100), true, false), DriftState::Fresh);
}

#[test]
fn a_malformed_stored_timestamp_is_treated_as_never_indexed_rather_than_silently_drifting_forever() {
    assert_eq!(drift_state(Some(100), Some(105), false, true), DriftState::NeverIndexed);
}

#[test]
fn the_card_states_layout_manifest_entry_point_and_test_command() {
    let card = build_card(&fixture());
    assert!(card.contains("src"), "layout: {}", card);
    assert!(card.contains("tests"));
    assert!(card.contains("Cargo.toml"));
    assert!(card.contains("fixture"), "manifest name");
    assert!(card.contains("src/main.rs"), "entry point");
    assert!(card.contains("cargo test"), "inferred test command");
    assert!(card.len() <= CARD_MAX_CHARS, "card must stay budget-sized: {}", card.len());
}

#[test]
fn an_unreadable_root_yields_a_degenerate_card_the_caller_can_reject() {
    let card = build_card(&bare("/nonexistent/definitely-not-a-project-xyz"));
    assert!(card.lines().count() <= 1, "nothing to say about a directory that is not there: {:?}", card);
}

#[test]
fn the_card_is_deterministic_across_rebuilds() {
    assert_eq!(build_card(&fixture()), build_card(&fixture()), "unstable output would churn the card every run");
}

#[test]
fn the_layout_line_lists_directories_in_sorted_order_regardless_of_creation_order() {
    let mut f = bare("/tmp/sort");
    f.dirs = strings(&["zebra", "alpha", ".git", "target", "node_modules", "middle"]);
    let card = build_card(&f);
    let layout_line = card.lines().find(|l| l.starts_with("- layout:")).expect("layout line present");
    assert_eq!(layout_line, "- layout: alpha, middle, zebra");
}

#[test]
fn truncation_never_splits_a_multi_byte_character() {
    let mut chosen = None;
    for pad in 0..3 {
        let candidate = format!("/tmp/mach-card-utf8-{}{}", "x".repeat(pad), "\u{5b57}".repeat(500));
        let first_line = format!("project {} at {}\n", normalize_name(&candidate), candidate);
        if first_line.len() > CARD_MAX_CHARS && !first_line.is_char_boundary(CARD_MAX_CHARS) {
            chosen = Some((candidate, first_line));
            break;
        }
    }
    let (dir, first_line) = chosen.expect("one of the 3 byte alignments must straddle the cut point");
    let card = build_card(&bare(&dir));
    assert!(card.len() <= CARD_MAX_CHARS, "card must stay budget-sized: {}", card.len());
    assert!(card.len() + 3 > CARD_MAX_CHARS && first_line.starts_with(&card));
}

#[test]
fn a_package_json_project_names_itself_and_infers_npm_test() {
    let mut f = bare("/tmp/mach-card-js");
    f.files = strings(&["package.json"]);
    f.package_json = Some("{\"name\": \"fixture-js\", \"scripts\": {\"test\": \"vitest\"}}".to_string());
    let card = build_card(&f);
    assert!(card.contains("fixture-js"), "manifest name: {}", card);
    assert!(card.contains("npm test"), "inferred test command: {}", card);
}

#[test]
fn a_go_mod_project_names_itself_and_infers_go_test() {
    let mut f = bare("/tmp/mach-card-go");
    f.files = strings(&["go.mod"]);
    f.go_mod = Some("module github.com/example/fixture\n\ngo 1.22\n".to_string());
    let card = build_card(&f);
    assert!(card.contains("github.com/example/fixture"), "manifest name: {}", card);
    assert!(card.contains("go test ./..."), "inferred test command: {}", card);
}

#[test]
fn manifests_are_asked_for_a_name_in_turn() {
    assert_eq!(manifest_name(None, None, None), None);
    assert_eq!(manifest_name(None, Some("{\"name\": 1}"), Some("module m\n")), None, "a package without a name ends it");
    assert_eq!(manifest_name(None, Some("{"), Some("module m\n")), None);
    assert_eq!(manifest_name(Some("[workspace]\n"), None, Some("go 1\nmodule  m \n")).as_deref(), Some("m"));
    assert_eq!(manifest_name(Some("name = \"a\"\n"), Some("{\"name\":\"b\"}"), None).as_deref(), Some("a"));
    let v: serde_json::Value = serde_json::from_str("{\"name\": \"n\"}").unwrap();
    assert_eq!(name_in_package(&v).as_deref(), Some("n"));
    assert!(manifest_names().contains(&"Cargo.toml".to_string()));
    assert!(entry_point_names().contains(&"src/main.rs".to_string()));
    assert_eq!(test_command(&strings(&["README.md"])), None);
    assert_eq!(test_command(&strings(&["Cargo.toml"])), Some("cargo test --workspace"));
    assert_eq!(test_command(&strings(&["pyproject.toml", "go.mod"])), Some("pytest"));
}
