use kb::assistant::{config_file_path, guide_file_name, hooks_dir_path, outcome_project, product_name};
use kb::improve::checks::{
    check_for, hook_kind, parse_frontmatter, scan_settings, settings_verdict, verify_changes, verify_claude_md,
    verify_hook_script, verify_settings_json, verify_skill_md, FileCheck, HookKind, SettingsScan,
};
use kb::improve::outcome::{
    failure_streak, health_ok, is_failed_outcome, is_pre_run_drift_outcome, is_uncommitted_targets_outcome, parse_pre_run_drift,
    parse_uncommitted_targets, pre_run_drift_reason, uncommitted_block_detail, uncommitted_targets_reason, Outcome,
    PRE_RUN_DRIFT_PREFIX,
};
use kb::improve::prompt::{build_prompt, memory_line, Bundle, RelationLine};
use kb::improve::result::{commit_message, parse_result, Action, ImproveResult};
use kb::improve::targets::{
    is_signal_predicate, min_signal_from_env, model_from_env, should_run, timeout_from_env, ProcessImproveLlm, Targets,
};
use kb::improve::vcs::{
    dirty_target_paths, git_add_argv, git_commit_argv, git_status_argv, is_status_output, parse_chezmoi_managed, parse_chezmoi_status,
    parse_git_status_paths, refuse_unscoped_commit, unmanaged_targets,
};
use kb::improve::verify::{changed_files, snapshot_layout, snapshot_path, Change, RootDiff};
use kb::memory::Memory;
use kb::textmap::TextMap;

fn outcome_memory(id: i64, content: &str, source: &str, created_at: &str) -> Memory {
    Memory {
        id,
        content: content.to_string(),
        source: Some(source.to_string()),
        project: Some(outcome_project("Agent")),
        created_at: created_at.to_string(),
    }
}

fn targets() -> Targets {
    Targets::from_home("/h", "Agent")
}

fn strings(v: &[&str]) -> Vec<String> {
    v.iter().map(|s| s.to_string()).collect()
}

/// The verdict on settings whose hook scripts are there where `present` says so.
fn settings(text: &str, present: &dyn Fn(&str) -> bool) -> Result<(), String> {
    let t = targets();
    let scan: SettingsScan = verify_settings_json(&t.settings_json, text, &t.hooks_dir);
    let found: Vec<bool> = scan.refs.iter().map(|r| present(r)).collect();
    settings_verdict(&t.settings_json, &scan, &found)
}

#[test]
fn signal_predicates_are_case_insensitive_and_gate_respects_force() {
    assert!(is_signal_predicate("Prefers"));
    assert!(is_signal_predicate("frustrated-by"));
    assert!(!is_signal_predicate("uses"));
    assert!(!should_run(4, 5, false));
    assert!(should_run(5, 5, false));
    assert!(should_run(0, 5, true));
}

#[test]
fn parse_result_reads_trailing_block_and_multiline_rationale() {
    let out = "I looked around.\n\nIMPROVE-RESULT\naction: edit\nfiles: /h/.agent/skills/kb/SKILL.md, /h/.agent/AGENT.md\nrationale: first line\nsecond line\nevidence: m1, r2\n";
    let r = parse_result(out).unwrap();
    assert_eq!(r.action, Action::Edit);
    assert_eq!(r.files.len(), 2);
    assert_eq!(r.rationale, "first line second line");
    assert_eq!(r.evidence, "m1, r2");
}

#[test]
fn parse_result_handles_none_and_rejects_garbage() {
    let r = parse_result("```\nIMPROVE-RESULT\naction: none\nfiles: none\nrationale: nothing\nevidence: none\n```").unwrap();
    assert_eq!(r.action, Action::Nothing);
    assert!(r.files.is_empty());
    assert!(parse_result("no block here").is_none());
    assert!(parse_result("IMPROVE-RESULT\naction: maybe\n").is_none());
    assert!(parse_result("IMPROVE-RESULT\nfiles: x\n").is_none());
}

#[test]
fn parse_git_status_paths_reads_porcelain_and_follows_renames() {
    let out = " M dot_config/mach/engines/kb/src/store.rs\n M dot_config/mach/executable_install.sh\nR  dot_agent/skills/old/SKILL.md -> dot_agent/skills/new/SKILL.md\n\n";
    let paths = parse_git_status_paths(out);
    assert_eq!(
        paths,
        vec![
            "dot_config/mach/engines/kb/src/store.rs".to_string(),
            "dot_config/mach/executable_install.sh".to_string(),
            "dot_agent/skills/new/SKILL.md".to_string(),
        ]
    );
    assert!(parse_git_status_paths("").is_empty());
}

#[test]
fn uncommitted_targets_reason_round_trips_through_an_outcome_memory() {
    let dirty = vec!["/h/.agent/skills".to_string(), "/h/.agent/AGENT.md".to_string()];
    let reason = uncommitted_targets_reason(&dirty);
    assert_eq!(reason, "chezmoi source has uncommitted changes in write targets: /h/.agent/skills, /h/.agent/AGENT.md");

    let outcome = Outcome::Failed { reason };
    let text = outcome.memory_text();
    assert!(text.starts_with("Improve run failed and was rolled back: chezmoi source has uncommitted changes"));

    let parsed = parse_uncommitted_targets(&text).unwrap();
    assert_eq!(parsed, vec!["/h/.agent/skills".to_string(), "/h/.agent/AGENT.md".to_string()]);

    assert!(parse_uncommitted_targets("Improve run failed and was rolled back: agent: timed out").is_none());
}

#[test]
fn is_uncommitted_targets_outcome_only_matches_this_specific_failure() {
    let dirty_reason = uncommitted_targets_reason(&["/h/.agent/AGENT.md".to_string()]);
    let this_kind = outcome_memory(1, &Outcome::Failed { reason: dirty_reason }.memory_text(), "improve t failed", "2026-09-20T00:00:00Z");
    assert!(is_uncommitted_targets_outcome(&this_kind));

    let other_failure =
        outcome_memory(2, &Outcome::Failed { reason: "agent: timed out".into() }.memory_text(), "improve t failed", "2026-09-20T00:00:00Z");
    assert!(!is_uncommitted_targets_outcome(&other_failure));

    let applied = outcome_memory(
        3,
        &Outcome::Applied { result: ImproveResult { action: Action::Edit, files: vec![], rationale: "r".into(), evidence: "none".into() }, sha: "abc".into() }
            .memory_text(),
        "improve t abc",
        "2026-09-20T00:00:00Z",
    );
    assert!(!is_uncommitted_targets_outcome(&applied));
}

#[test]
fn uncommitted_block_detail_only_fires_when_the_whole_streak_is_this_failure() {
    let dirty1 = uncommitted_targets_reason(&["/h/.agent/skills".to_string()]);
    let dirty2 = uncommitted_targets_reason(&["/h/.agent/skills".to_string(), "/h/.agent/AGENT.md".to_string()]);
    let oldest = outcome_memory(1, &Outcome::Failed { reason: dirty1 }.memory_text(), "improve t1 failed", "2026-09-20T08:00:00Z");
    let newest = outcome_memory(2, &Outcome::Failed { reason: dirty2 }.memory_text(), "improve t2 failed", "2026-09-21T09:00:00Z");

    // newest-first, as `check_improve` passes it
    let detail = uncommitted_block_detail(&[&newest, &oldest]).unwrap();
    assert_eq!(
        detail,
        "blocked since 2026-09-20T08:00:00Z — uncommitted: /h/.agent/skills, /h/.agent/AGENT.md"
    );

    // Any non-uncommitted failure in the streak falls back to `None` so
    // the caller uses its generic message instead.
    let other = outcome_memory(3, &Outcome::Failed { reason: "agent: timed out".into() }.memory_text(), "improve t3 failed", "2026-09-21T10:00:00Z");
    assert!(uncommitted_block_detail(&[&other, &oldest]).is_none());
    assert!(uncommitted_block_detail(&[]).is_none());
}

#[test]
fn pre_run_drift_reason_round_trips_through_an_outcome_memory() {
    let drifted = vec!["/h/.agent/AGENT.md".to_string(), "/h/.agent/settings.json".to_string()];
    let reason = pre_run_drift_reason(&drifted);
    assert_eq!(
        reason,
        "chezmoi source drifted from write targets before the run (human edit in progress?): \
         /h/.agent/AGENT.md, /h/.agent/settings.json"
    );

    let outcome = Outcome::Failed { reason };
    let text = outcome.memory_text();
    assert!(text.starts_with("Improve run failed and was rolled back: chezmoi source drifted"));

    let parsed = parse_pre_run_drift(&text).unwrap();
    assert_eq!(parsed, vec!["/h/.agent/AGENT.md".to_string(), "/h/.agent/settings.json".to_string()]);

    assert!(parse_pre_run_drift("Improve run failed and was rolled back: agent: timed out").is_none());
}

#[test]
fn is_pre_run_drift_outcome_only_matches_this_specific_failure() {
    let drift_reason = pre_run_drift_reason(&["/h/.agent/AGENT.md".to_string()]);
    let this_kind =
        outcome_memory(1, &Outcome::Failed { reason: drift_reason }.memory_text(), "improve t failed", "2026-09-20T00:00:00Z");
    assert!(is_pre_run_drift_outcome(&this_kind));
    // The two preflight guards must never be confused for each other.
    assert!(!is_uncommitted_targets_outcome(&this_kind));

    let uncommitted_kind = outcome_memory(
        2,
        &Outcome::Failed { reason: uncommitted_targets_reason(&["/h/.agent/AGENT.md".to_string()]) }.memory_text(),
        "improve t failed",
        "2026-09-20T00:00:00Z",
    );
    assert!(!is_pre_run_drift_outcome(&uncommitted_kind));

    let other_failure =
        outcome_memory(3, &Outcome::Failed { reason: "agent: timed out".into() }.memory_text(), "improve t failed", "2026-09-20T00:00:00Z");
    assert!(!is_pre_run_drift_outcome(&other_failure));
}

#[test]
fn uncommitted_block_detail_names_a_pre_run_drift_streak_too() {
    let drift1 = pre_run_drift_reason(&["/h/.agent/AGENT.md".to_string()]);
    let drift2 = pre_run_drift_reason(&["/h/.agent/AGENT.md".to_string(), "/h/.agent/settings.json".to_string()]);
    let oldest = outcome_memory(1, &Outcome::Failed { reason: drift1 }.memory_text(), "improve t1 failed", "2026-09-20T08:00:00Z");
    let newest = outcome_memory(2, &Outcome::Failed { reason: drift2 }.memory_text(), "improve t2 failed", "2026-09-21T09:00:00Z");

    let detail = uncommitted_block_detail(&[&newest, &oldest]).unwrap();
    assert_eq!(
        detail,
        "blocked since 2026-09-20T08:00:00Z — targets differ from chezmoi source: \
         /h/.agent/AGENT.md, /h/.agent/settings.json"
    );
}

#[test]
fn uncommitted_block_detail_falls_back_to_generic_advice_when_paths_cant_be_recovered() {
    // A drift outcome whose content the parser can't extract a path list
    // from (defensive case -- not producible by `pre_run_drift_reason`
    // itself, but the fallback text still has to exist for foreign or
    // hand-edited memory content carrying the same prefix with nothing
    // after it).
    let empty = outcome_memory(
        1,
        &format!("Improve run failed and was rolled back: {}", PRE_RUN_DRIFT_PREFIX),
        "improve t1 failed",
        "2026-09-20T08:00:00Z",
    );
    let detail = uncommitted_block_detail(&[&empty]).unwrap();
    assert_eq!(detail, "blocked since 2026-09-20T08:00:00Z — targets differ from chezmoi source: run chezmoi add on the edited targets");
}

#[test]
fn uncommitted_block_detail_does_not_mix_the_two_preflight_guards() {
    // A streak that is one failure of each kind must fall back to the
    // generic message -- naming paths from a mixed streak would imply a
    // consistent cause that isn't there.
    let uncommitted =
        outcome_memory(1, &Outcome::Failed { reason: uncommitted_targets_reason(&["/h/.agent/AGENT.md".to_string()]) }.memory_text(), "improve t1 failed", "2026-09-20T08:00:00Z");
    let drift =
        outcome_memory(2, &Outcome::Failed { reason: pre_run_drift_reason(&["/h/.agent/AGENT.md".to_string()]) }.memory_text(), "improve t2 failed", "2026-09-21T09:00:00Z");
    assert!(uncommitted_block_detail(&[&drift, &uncommitted]).is_none());
}

#[test]
fn commit_message_and_outcome_texts() {
    let r = ImproveResult {
        action: Action::Create,
        files: vec!["/h/.agent/skills/deploy-check/SKILL.md".to_string()],
        rationale: "Repeated corrections about deploys.".into(),
        evidence: "m1, r2".into(),
    };
    let msg = commit_message(&r);
    assert!(msg.starts_with("improve: create deploy-check/SKILL.md\n\nRepeated"));
    assert!(msg.ends_with("evidence: m1, r2\n"));

    let applied = Outcome::Applied { result: r, sha: "abc123".into() };
    assert_eq!(applied.memory_source("2026-09-08T10:00:00Z"), "improve 2026-09-08T10:00:00Z abc123");
    assert!(applied.memory_text().contains("chezmoi commit abc123"));
    let none = Outcome::Nothing { rationale: "quiet".into() };
    assert!(none.memory_source("t").ends_with(" none"));
    let failed = Outcome::Failed { reason: "bash -n".into() };
    assert!(failed.is_failure());
    assert!(failed.memory_source("t").ends_with(" failed"));
}

#[test]
fn targets_allow_only_inside_roots() {
    let t = targets();
    assert!(t.allows("/h/.agent/skills/new/SKILL.md"));
    assert!(t.allows("/h/.agent/AGENT.md"));
    assert!(t.allows("/h/.config/agent-hooks/x.sh"));
    assert!(!t.allows("/h/.agent/settings.local.json"));
    assert!(!t.allows("/h/.bashrc"));
    assert!(!t.allows("/h/.agent/skills-old/x"));
    assert!(t.allowed_tools().iter().any(|s| s == "Edit(/h/.agent/AGENT.md)"));
    assert!(!t.allowed_tools().iter().any(|s| s == "Bash"));
    assert_eq!(
        t.roots(),
        strings(&["/h/.agent/skills", "/h/.agent/AGENT.md", "/h/.agent/settings.json", "/h/.config/agent-hooks"])
    );
    assert_eq!(t.allowed_tools().len(), 11);
}

#[test]
fn an_assistant_is_spelled_out_from_its_name() {
    assert_eq!(product_name("Agent"), "Agent Code");
    assert_eq!(config_file_path("Agent", "skills"), ".agent/skills");
    assert_eq!(guide_file_name("Agent"), "AGENT.md");
    assert_eq!(hooks_dir_path("Agent"), ".config/agent-hooks");
    assert_eq!(outcome_project("Agent"), "agent-config");
}

#[test]
fn signals_are_recognised_in_any_case_and_spacing() {
    for p in ["prefers", "REJECTS", " values\n", "wants", "avoids", "dislikes", "corrects", "disli\u{212A}es"] {
        assert!(is_signal_predicate(p), "{}", p);
    }
    for p in ["", "prefer", "prefers more", "frustrated by"] {
        assert!(!is_signal_predicate(p), "{}", p);
    }
}

#[test]
fn snapshot_diff_and_restore_round_trip() {
    let t = targets();
    let root = |r: &str, live: Vec<(&str, bool)>, copy: Vec<&str>| RootDiff {
        root: r.to_string(),
        live: live.iter().map(|(f, same)| (f.to_string(), *same)).collect(),
        copy: strings(&copy),
    };
    let before = vec![
        root(&t.skills_dir, vec![("kb/SKILL.md", true)], vec!["kb/SKILL.md"]),
        root(&t.claude_md, vec![("", true)], vec![""]),
        root(&t.hooks_dir, vec![("kb-model.sh", true)], vec!["kb-model.sh"]),
    ];
    assert!(changed_files(&before).is_empty());
    let after = vec![
        root(&t.skills_dir, vec![("kb/SKILL.md", true), ("new/SKILL.md", false)], vec!["kb/SKILL.md"]),
        root(&t.claude_md, vec![("", false)], vec![""]),
        root(&t.hooks_dir, vec![], vec!["kb-model.sh"]),
    ];
    let ch = changed_files(&after);
    assert_eq!(ch.len(), 3);
    assert!(ch.iter().any(|c| matches!(c, Change::Added(p) if p.ends_with("new/SKILL.md"))));
    assert!(ch.iter().any(|c| matches!(c, Change::Modified(p) if p == &t.claude_md)));
    assert!(ch.iter().any(|c| matches!(c, Change::Deleted(p) if p.ends_with("kb-model.sh"))));
    let paths: Vec<&str> = ch.iter().map(|c| c.path()).collect();
    assert_eq!(paths, vec!["/h/.agent/AGENT.md", "/h/.agent/skills/new/SKILL.md", "/h/.config/agent-hooks/kb-model.sh"]);
}

#[test]
fn a_snapshot_copies_each_root_to_a_numbered_place() {
    let t = targets();
    let s = snapshot_layout(&t, "/snap");
    assert_eq!(s.dir, "/snap");
    assert_eq!(s.roots[0], ("/h/.agent/skills".to_string(), "/snap/0".to_string()));
    assert_eq!(s.roots[3], ("/h/.config/agent-hooks".to_string(), "/snap/3".to_string()));
    assert_eq!(snapshot_path(&s, "/h/.agent/skills/kb/SKILL.md").as_deref(), Some("/snap/0/kb/SKILL.md"));
    assert_eq!(snapshot_path(&s, "/h/.agent/AGENT.md").as_deref(), Some("/snap/1"));
    assert_eq!(snapshot_path(&s, "/h/.bashrc"), None);
}

#[test]
fn frontmatter_and_skill_verification() {
    let fm = parse_frontmatter("---\nname: kb\ndescription: >\n  Use when x.\n  Also y.\n---\nbody").unwrap();
    assert_eq!(fm.get("name").unwrap(), "kb");
    assert_eq!(fm.get("description").unwrap(), "Use when x. Also y.");
    assert!(parse_frontmatter("no fm").is_none());

    let skill = |name: &str, text: &str| verify_skill_md(&format!("/h/.agent/skills/{}/SKILL.md", name), text);
    assert!(skill("kb", "---\nname: kb\ndescription: memory\n---\nbody\n").is_ok());
    assert!(skill("bad", "---\nname: other\ndescription: d\n---\n").unwrap_err().contains("!= directory"));
    assert!(skill("nodesc", "---\nname: nodesc\n---\n").is_err());
    assert!(skill("kb", "name: kb\n").unwrap_err().contains("frontmatter"));
    assert!(skill("kb", "---\ndescription: d\n---\n").is_err());
}

#[test]
fn hook_settings_and_claude_md_verification() {
    let t = targets();
    let hook = |name: &str, text: &str, syntax: bool| {
        verify_hook_script(&format!("{}/{}", t.hooks_dir, name), text, syntax, true)
    };
    assert!(hook("kb-model.sh", "#!/usr/bin/env bash\necho hi\nexit 0\n", true).is_ok());
    assert!(hook("bad.sh", "#!/usr/bin/env bash\nset -e\nexit 0\n", true).unwrap_err().contains("set -e"));
    assert!(hook("noexit.sh", "#!/usr/bin/env bash\necho\n", true).unwrap_err().contains("exit 0"));
    assert!(hook("syntax.sh", "#!/usr/bin/env bash\nif [ ; then\nexit 0\n", false).unwrap_err().contains("bash -n"));
    assert!(verify_hook_script("/h/x.sh", "#!/bin/bash\nexit 0\n", true, false).is_err(), "not executable");

    let there = |r: &str| r.ends_with("/kb-model.sh");
    let model = "{\"hooks\":{\"SessionStart\":[{\"hooks\":[{\"type\":\"command\",\"command\":\"bash /h/.config/agent-hooks/kb-model.sh\"}]}]}}";
    assert!(settings(model, &there).is_ok());
    assert!(settings("{not json", &there).unwrap_err().contains("invalid JSON"));
    let missing = "{\"hooks\":{\"X\":[{\"hooks\":[{\"command\":\"bash /h/.config/agent-hooks/missing.sh\"}]}]}}";
    assert!(settings(missing, &there).unwrap_err().contains("missing file"));
    assert!(settings("[]", &there).is_err(), "settings are an object");
    assert!(settings("{}", &there).is_ok());

    let len = "# Global Rules\n\nrule one\nrule two\nrule three\n".len() as u64;
    assert!(verify_claude_md(&t.claude_md, len, Some(50)).is_ok());
    assert!(verify_claude_md(&t.claude_md, len, Some(1000)).unwrap_err().contains("shrank"));
    assert!(verify_claude_md(&t.claude_md, 0, Some(10)).unwrap_err().contains("emptied"));
    assert!(verify_claude_md(&t.claude_md, 80, Some(100)).is_ok());
    assert!(verify_claude_md(&t.claude_md, 79, Some(100)).is_err());
    assert!(verify_claude_md(&t.claude_md, 1, None).is_ok());
}

#[test]
fn settings_name_the_hook_scripts_that_must_exist() {
    let v: serde_json::Value = serde_json::from_str(
        "{\"hooks\":{\"A\":[{\"hooks\":[{\"command\":\"bash /h/hooks/a.sh --x\"},{\"command\":\"echo hi\"}]}],\"B\":[{\"hooks\":[{\"command\":\"/h/hooks/b.py\"}]}]}}",
    )
    .unwrap();
    let scan = scan_settings("/h/settings.json", &v, "/h/hooks");
    assert_eq!(scan.refs, strings(&["/h/hooks/a.sh", "/h/hooks/b.py"]));
    assert!(scan.error.is_none());
}

#[test]
fn hook_kinds_follow_the_extension_or_the_first_line() {
    assert_eq!(hook_kind("/h/a.sh", ""), HookKind::Bash);
    assert_eq!(hook_kind("/h/a.py", ""), HookKind::Python);
    assert_eq!(hook_kind("/h/a.txt", "hello"), HookKind::Other);
}

#[test]
fn verify_changes_rejects_outside_and_deleted_single_targets() {
    let t = targets();
    let one = |c: Change| verify_changes(&vec![c], &t, &vec![Ok(())]);
    assert!(one(Change::Modified("/h/.bashrc".to_string())).unwrap_err().contains("outside"));
    assert!(one(Change::Deleted(t.claude_md.clone())).unwrap_err().contains("deleted"));
    assert!(one(Change::Deleted(t.settings_json.clone())).unwrap_err().contains("deleted"));
    assert!(one(Change::Deleted(format!("{}/old/SKILL.md", t.skills_dir))).is_ok());
    let failed = verify_changes(
        &vec![Change::Modified(t.claude_md.clone()), Change::Added("/h/.bashrc".to_string())],
        &t,
        &vec![Err("emptied".to_string()), Ok(())],
    );
    assert_eq!(failed.unwrap_err(), "emptied", "the first failure is the one reported");
}

#[test]
fn each_changed_file_gets_the_check_for_its_place() {
    let t = targets();
    let at = |p: &str| check_for(&Change::Modified(p.to_string()), &t);
    assert_eq!(at("/h/.agent/AGENT.md"), FileCheck::Rules);
    assert_eq!(at("/h/.agent/settings.json"), FileCheck::Settings);
    assert_eq!(at("/h/.config/agent-hooks/x.sh"), FileCheck::Hook);
    assert_eq!(at("/h/.agent/skills/a/SKILL.md"), FileCheck::Skill);
    assert_eq!(at("/h/.agent/skills/a/notes.md"), FileCheck::Nothing);
    assert_eq!(check_for(&Change::Deleted("/h/.config/agent-hooks/x.sh".to_string()), &t), FileCheck::Nothing);
}

#[test]
fn chezmoi_parsing_and_unmanaged_detection() {
    let managed = parse_chezmoi_managed(
        "/h/.agent\n/h/.agent/AGENT.md\n/h/.agent/skills\n/h/.agent/skills/kb/SKILL.md\n/h/.config/agent-hooks/kb-recall.sh\n",
    );
    let un = unmanaged_targets(&managed, &targets());
    assert_eq!(un, strings(&["/h/.agent/settings.json"]));

    let st = parse_chezmoi_status(" M /h/.agent/AGENT.md\n R /h/install-daemons.sh\n\n");
    assert_eq!(st, strings(&["/h/.agent/AGENT.md", "/h/install-daemons.sh"]));
}

#[test]
fn status_output_is_told_from_other_text() {
    assert!(is_status_output("") && is_status_output(" M a\n"));
    assert!(!is_status_output("M\u{e9}\u{e9}a\n"));
}

#[test]
fn dirty_target_paths_scopes_to_targets_only() {
    let src = "/src";
    let pair = |a: &str, b: &str| (a.to_string(), b.to_string());
    let pairs = vec![
        pair("/h/.agent/skills", "/src/dot_agent/skills"),
        pair("/h/.agent/AGENT.md", "/src/dot_agent/AGENT.md"),
        pair("/h/.agent/settings.json", "/src/dot_agent/private_settings.json"),
        pair("/h/.config/agent-hooks", "/src/dot_config/agent-hooks"),
    ];
    let unrelated = strings(&["dot_config/mach/engines/kb/src/store.rs"]);
    assert!(dirty_target_paths(&pairs, src, &unrelated).is_empty());
    let nested = strings(&["dot_agent/skills/kb/SKILL.md"]);
    assert_eq!(dirty_target_paths(&pairs, src, &nested), strings(&["/h/.agent/skills"]));
    let settings = strings(&["dot_agent/private_settings.json"]);
    assert_eq!(dirty_target_paths(&pairs, src, &settings), strings(&["/h/.agent/settings.json"]));
    let mixed = strings(&["dot_agent/AGENT.md", "dot_config/mach/executable_install.sh"]);
    assert_eq!(dirty_target_paths(&pairs, src, &mixed), strings(&["/h/.agent/AGENT.md"]));
    assert!(dirty_target_paths(&pairs, src, &[]).is_empty());
}

#[test]
fn commit_argv_is_pathspec_scoped_to_exactly_the_given_source_paths() {
    let src = "/home/u/.local/share/chezmoi";
    let source_paths = strings(&[
        "/home/u/.local/share/chezmoi/dot_agent/skills",
        "/home/u/.local/share/chezmoi/dot_agent/AGENT.md",
        "/home/u/.local/share/chezmoi/dot_agent/private_settings.json",
        "/home/u/.local/share/chezmoi/dot_config/agent-hooks",
    ]);
    let unrelated = "/home/u/.local/share/chezmoi/dot_config/mach/engines/kb/src/store.rs";
    let add_argv = git_add_argv(src, &source_paths);
    assert_eq!(
        add_argv,
        vec![
            "-C", "/home/u/.local/share/chezmoi",
            "add", "-A", "--",
            "/home/u/.local/share/chezmoi/dot_agent/skills",
            "/home/u/.local/share/chezmoi/dot_agent/AGENT.md",
            "/home/u/.local/share/chezmoi/dot_agent/private_settings.json",
            "/home/u/.local/share/chezmoi/dot_config/agent-hooks",
        ]
    );
    assert!(!add_argv.contains(&unrelated.to_string()), "an unrelated dirty path must never reach `git add`");
    assert!(add_argv.iter().any(|a| a == "--"), "the pathspec separator must always be present, even with paths given");

    let commit_argv = git_commit_argv(src, "improve: edit AGENT.md", &source_paths);
    assert_eq!(
        commit_argv,
        vec![
            "-C", "/home/u/.local/share/chezmoi",
            "commit", "-q", "-m", "improve: edit AGENT.md", "--",
            "/home/u/.local/share/chezmoi/dot_agent/skills",
            "/home/u/.local/share/chezmoi/dot_agent/AGENT.md",
            "/home/u/.local/share/chezmoi/dot_agent/private_settings.json",
            "/home/u/.local/share/chezmoi/dot_config/agent-hooks",
        ]
    );
    assert!(!commit_argv.contains(&unrelated.to_string()), "an unrelated dirty path must never reach `git commit`");
    assert!(!source_paths.is_empty());
}

#[test]
fn process_chezmoi_commit_refuses_an_empty_target_list() {
    let err = refuse_unscoped_commit(&[]).unwrap_err();
    assert!(err.contains("no targets given"), "{}", err);
    assert!(refuse_unscoped_commit(&strings(&["a"])).is_ok());
}

#[test]
fn the_failure_streak_counts_from_the_newest_run() {
    assert_eq!(failure_streak(&[]), 0);
    assert_eq!(failure_streak(&[true, true, false, true]), 2);
    assert_eq!(failure_streak(&[true, true, true]), 3);
    assert!(is_failed_outcome(&outcome_memory(1, "x", "improve t failed", "t")));
    assert!(!is_failed_outcome(&outcome_memory(1, "x", "improve t abc", "t")));
}

#[test]
fn prompt_carries_every_section() {
    let t = targets();
    let mut usage: TextMap<(u32, u32, u32)> = TextMap::new();
    usage.insert("kb".to_string(), (3, 1, 2));
    let b = Bundle {
        model_lines: strings(&["- [belief, confidence 0.80] narrow scope"]),
        skill_usage: usage,
        relations: vec![RelationLine {
            id: 7,
            src: "user".to_string(),
            predicate: "rejects".to_string(),
            dst: "unrequested debug logging".to_string(),
            evidence_id: Some(4),
            evidence: Some("said no logging".to_string()),
        }],
        ..Default::default()
    };
    let p = build_prompt(&b, &t, "Agent");
    assert!(p.contains("narrow scope"));
    assert!(p.contains("r7 user --rejects--> unrequested debug logging (evidence m4: said no logging)"));
    assert!(p.contains("- kb: 3 invocations, 1 corrections, 2 sessions"));
    assert!(p.contains("(this is the first run)"));
    assert!(p.contains("IMPROVE-RESULT"));
    assert!(p.contains("/h/.agent/AGENT.md"));
    assert!(p.starts_with("You are running as `mach kb improve`, an unattended maintenance pass over the user's own Agent Code configuration."));
    assert!(p.contains("how Agent behaves in future sessions"));
    assert!(p.contains("6. In AGENT.md you may tighten"));
}

#[test]
fn a_memory_is_one_line_of_the_prompt() {
    let m = outcome_memory(5, " content \n", "improve t none", "2026-09-08T10:00:00Z");
    assert_eq!(memory_line(&m), "m5 [2026-09-08] (improve t none) content");
    let unsourced = Memory { source: None, created_at: "2026".to_string(), ..m };
    assert_eq!(memory_line(&unsourced), "m5 [2026] (-) content");
}

#[test]
fn every_action_word_reads_back() {
    for a in [Action::Edit, Action::Create, Action::Revert, Action::Nothing] {
        let r = parse_result(&format!("IMPROVE-RESULT\naction: {}\n", a.as_str())).unwrap();
        assert_eq!(r.action, a);
    }
    assert_eq!(Action::Nothing.as_str(), "none");
}

#[test]
fn settings_of_a_run_have_defaults() {
    assert_eq!((min_signal_from_env(None), min_signal_from_env(Some("9")), min_signal_from_env(Some(" 9"))), (5, 9, 5));
    assert_eq!((min_signal_from_env(Some("+7")), min_signal_from_env(Some("-7"))), (7, 5));
    assert_eq!((timeout_from_env(None), timeout_from_env(Some("60")), timeout_from_env(Some("1m"))), (900, 60, 900));
    assert_eq!(timeout_from_env(Some("18446744073709551616")), 900);
    assert_eq!((model_from_env(None).as_str(), model_from_env(Some("m")).as_str()), ("sonnet", "m"));
}

#[test]
fn a_run_is_allowed_the_tools_of_its_targets_alone() {
    let agent = ProcessImproveLlm::new(None, "Agent", "/w");
    assert_eq!((agent.claude_bin.as_str(), agent.cwd.as_str()), ("agent", "/w"));
    assert_eq!(ProcessImproveLlm::new(Some("/bin/a"), "Agent", "/w").claude_bin, "/bin/a");
    let argv = agent.argv("m", &targets());
    assert_eq!(argv[..7], strings(&["-p", "--model", "m", "--no-session-persistence", "--permission-prompts", "none", "--allowedTools"])[..]);
    assert_eq!(argv[7..], targets().allowed_tools()[..]);
}

#[test]
fn the_status_of_the_sources_is_asked_for_by_path() {
    assert_eq!(git_status_argv("/s", &strings(&["/s/a"])), strings(&["-C", "/s", "status", "--porcelain", "--", "/s/a"]));
}

#[test]
fn health_needs_a_fresh_run_and_no_streak() {
    assert!(health_ok(true, &[]));
    assert!(health_ok(true, &[true, true, false, true]));
    assert!(!health_ok(true, &[true, true, true]));
    assert!(!health_ok(false, &[]));
}

#[test]
fn changes_are_ordered_by_path_components() {
    let diff = RootDiff {
        root: "/h".to_string(),
        live: vec![("a-b/x".to_string(), false), ("a/x".to_string(), false)],
        copy: strings(&["a/y"]),
    };
    let found = changed_files(&vec![diff]);
    let paths: Vec<&str> = found.iter().map(|c| c.path()).collect();
    assert_eq!(paths, vec!["/h/a/x", "/h/a/y", "/h/a-b/x"]);
}

#[test]
fn an_applied_run_is_not_taken_for_a_failed_one() {
    let result = ImproveResult { action: Action::Edit, files: vec![], rationale: String::new(), evidence: String::new() };
    let applied = Outcome::Applied { result, sha: "fa11ed0".to_string() };
    assert!(!is_failed_outcome(&outcome_memory(1, "x", &applied.memory_source("t"), "t")));
    let nothing = Outcome::Nothing { rationale: String::new() };
    assert!(!is_failed_outcome(&outcome_memory(1, "x", &nothing.memory_source("t"), "t")));
    let failed = Outcome::Failed { reason: String::new() };
    assert!(is_failed_outcome(&outcome_memory(1, "x", &failed.memory_source("t"), "t")));
}
