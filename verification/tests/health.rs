use kb::health::{
    any_failed, disk_headroom_ok, failing_names, format_report, should_notify, streak_key, Check, NotifyStreak,
    DISK_HEADROOM_WARN_BYTES, NOTIFY_SUPPRESS_WINDOW_SECS,
};

fn check(name: &str, ok: bool) -> Check {
    Check { name: name.to_string(), ok, detail: "detail".to_string() }
}

#[test]
fn format_report_renders_ok_and_fail_markers() {
    let checks = vec![check("ollama", true), check("kb.db", false)];
    let report = format_report(&checks);
    assert!(report.contains("[OK] ollama: detail\n"));
    assert!(report.contains("[FAIL] kb.db: detail\n"));
}

#[test]
fn any_failed_true_only_when_some_check_fails() {
    assert!(!any_failed(&[check("a", true), check("b", true)]));
    assert!(any_failed(&[check("a", true), check("b", false)]));
    assert!(!any_failed(&[]));
}

#[test]
fn failing_names_is_sorted_and_only_the_failures() {
    let checks = vec![check("zeta", false), check("alpha", true), check("mid", false)];
    assert_eq!(failing_names(&checks), vec!["mid".to_string(), "zeta".to_string()]);
}

#[test]
fn streak_key_is_a_stable_join() {
    assert_eq!(streak_key(&["a".to_string(), "b".to_string()]), "a,b");
    assert_eq!(streak_key(&[]), "");
}

#[test]
fn should_notify_never_fires_when_nothing_is_failing() {
    assert!(!should_notify(&[], None, 1000));
    let last = NotifyStreak { key: "ollama".to_string(), last_notified_secs: 0 };
    assert!(!should_notify(&[], Some(&last), 1000));
}

#[test]
fn should_notify_fires_on_first_ever_failure() {
    assert!(should_notify(&["ollama".to_string()], None, 1000));
}

#[test]
fn should_notify_suppresses_the_same_failing_set_within_the_window() {
    let last = NotifyStreak { key: "ollama".to_string(), last_notified_secs: 1000 };
    assert!(!should_notify(&["ollama".to_string()], Some(&last), 1000 + NOTIFY_SUPPRESS_WINDOW_SECS - 1));
}

#[test]
fn should_notify_fires_again_once_the_window_elapses_for_the_same_set() {
    let last = NotifyStreak { key: "ollama".to_string(), last_notified_secs: 1000 };
    assert!(should_notify(&["ollama".to_string()], Some(&last), 1000 + NOTIFY_SUPPRESS_WINDOW_SECS));
}

#[test]
fn should_notify_fires_immediately_when_the_failing_set_changes() {
    let last = NotifyStreak { key: "ollama".to_string(), last_notified_secs: 1000 };
    assert!(should_notify(&["ollama".to_string(), "kb.db".to_string()], Some(&last), 1001));
}

#[test]
fn disk_headroom_ok_boundary() {
    assert!(disk_headroom_ok(DISK_HEADROOM_WARN_BYTES));
    assert!(!disk_headroom_ok(DISK_HEADROOM_WARN_BYTES - 1));
}

