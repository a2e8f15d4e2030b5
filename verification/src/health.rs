//! Health checks: their report, and when a standing failure is worth another
//! notification.

use vstd::prelude::*;

use crate::order::{lemma_sorted_ignores_order, sort_texts, sorted};
use crate::text::{join, joined_texts, lemma_texts_push, push_text, same_text, string_of, texts};

verus! {

/// One check and how it came out.
#[derive(Debug, Clone, PartialEq, Eq)]
pub struct Check {
    pub name: String,
    pub ok: bool,
    pub detail: String,
}

/// The report's line for a check.
pub open spec fn check_line(c: Check) -> Seq<char> {
    "["@ + (if c.ok {
        "OK"@
    } else {
        "FAIL"@
    }) + "] "@ + c.name@ + ": "@ + c.detail@ + "\n"@
}

/// The report's lines.
pub open spec fn report(checks: Seq<Check>) -> Seq<char>
    decreases checks.len(),
{
    if checks.len() == 0 {
        Seq::empty()
    } else {
        report(checks.drop_last()) + check_line(checks.last())
    }
}

/// Writes the report: a line for each check.
pub fn format_report(checks: &[Check]) -> (r: String)
    ensures
        r@ == report(checks@),
{
    let mut s: Vec<char> = Vec::new();
    let mut i: usize = 0;
    assert(s@ =~= report(checks@.take(0)));
    while i < checks.len()
        invariant
            i <= checks@.len(),
            s@ == report(checks@.take(i as int)),
        decreases checks@.len() - i,
    {
        assert(checks@.take(i + 1).drop_last() =~= checks@.take(i as int));
        let ghost before = s@;
        let c: &Check = &checks[i];
        push_text(&mut s, "[");
        push_text(
            &mut s,
            if c.ok {
                "OK"
            } else {
                "FAIL"
            },
        );
        push_text(&mut s, "] ");
        push_text(&mut s, c.name.as_str());
        push_text(&mut s, ": ");
        push_text(&mut s, c.detail.as_str());
        push_text(&mut s, "\n");
        assert(s@ =~= before + check_line(*c));
        i = i + 1;
    }
    assert(checks@.take(i as int) =~= checks@);
    string_of(s.as_slice())
}

/// Whether any check failed.
pub fn any_failed(checks: &[Check]) -> (r: bool)
    ensures
        r == exists|i: int| 0 <= i < checks@.len() && !(#[trigger] checks@[i]).ok,
{
    let mut i: usize = 0;
    while i < checks.len()
        invariant
            i <= checks@.len(),
            forall|j: int| 0 <= j < i ==> (#[trigger] checks@[j]).ok,
        decreases checks@.len() - i,
    {
        if !checks[i].ok {
            return true;
        }
        i = i + 1;
    }
    false
}

/// The names of the checks that failed, in the checks' order.
pub open spec fn failed_names(checks: Seq<Check>) -> Seq<Seq<char>>
    decreases checks.len(),
{
    if checks.len() == 0 {
        Seq::empty()
    } else if checks.last().ok {
        failed_names(checks.drop_last())
    } else {
        failed_names(checks.drop_last()).push(checks.last().name@)
    }
}

/// The names of the checks that failed, sorted.
pub fn failing_names(checks: &[Check]) -> (r: Vec<String>)
    ensures
        texts(r@) == sorted(failed_names(checks@)),
{
    let mut out: Vec<String> = Vec::new();
    let mut i: usize = 0;
    assert(texts(out@) =~= failed_names(checks@.take(0)));
    while i < checks.len()
        invariant
            i <= checks@.len(),
            texts(out@) == failed_names(checks@.take(i as int)),
        decreases checks@.len() - i,
    {
        assert(checks@.take(i + 1).drop_last() =~= checks@.take(i as int));
        if !checks[i].ok {
            let n = checks[i].name.clone();
            proof {
                lemma_texts_push(out@, n);
            }
            out.push(n);
        }
        i = i + 1;
    }
    assert(checks@.take(i as int) =~= checks@);
    sort_texts(&out)
}

/// What a set of failing checks is known by.
pub fn streak_key(failing: &[String]) -> (r: String)
    ensures
        r@ == join(texts(failing@), ","@),
{
    let k = joined_texts(failing, ",");
    string_of(k.as_slice())
}

/// The order in which the checks ran does not matter to the key of their
/// failures.
pub proof fn law_streak_key_ignores_check_order(a: Seq<Check>, b: Seq<Check>)
    requires
        failed_names(a).to_multiset() == failed_names(b).to_multiset(),
    ensures
        join(sorted(failed_names(a)), ","@) == join(sorted(failed_names(b)), ","@),
{
    lemma_sorted_ignores_order(failed_names(a), failed_names(b));
}

/// The last notification: which failures it was about, and when it was sent.
#[derive(Debug, Clone, PartialEq)]
pub struct NotifyStreak {
    pub key: String,
    pub last_notified_secs: u64,
}

/// For how long the same failures are not notified of again: a day.
pub const NOTIFY_SUPPRESS_WINDOW_SECS: u64 = 86_400;

/// Whether a notification is due: something fails, and it is not what the last
/// notification was about less than a day ago. A clock that was set back counts
/// as no time passed.
pub open spec fn notification_due(failing: Seq<Seq<char>>, last: Option<NotifyStreak>, now: u64) -> bool {
    failing.len() > 0 && match last {
        None => true,
        Some(s) => s.key@ != join(failing, ","@) || now - s.last_notified_secs >= NOTIFY_SUPPRESS_WINDOW_SECS,
    }
}

/// Whether a notification about the failing checks is due.
pub fn should_notify(failing: &[String], last: Option<&NotifyStreak>, now_secs: u64) -> (r: bool)
    ensures
        r == notification_due(
            texts(failing@),
            match last {
                Some(s) => Some(*s),
                None => None,
            },
            now_secs,
        ),
{
    assert(texts(failing@).len() == failing@.len());
    if failing.len() == 0 {
        return false;
    }
    let key = streak_key(failing);
    match last {
        None => true,
        Some(s) => {
            if !same_text(s.key.as_str(), key.as_str()) {
                return true;
            }
            now_secs >= s.last_notified_secs && now_secs - s.last_notified_secs >= NOTIFY_SUPPRESS_WINDOW_SECS
        },
    }
}

/// Once notified of, the same failures stay quiet for a day, and no longer.
pub proof fn law_same_failures_stay_quiet_for_a_day(failing: Seq<Seq<char>>, sent: NotifyStreak, now: u64)
    requires
        failing.len() > 0,
        sent.key@ == join(failing, ","@),
        sent.last_notified_secs <= now,
    ensures
        notification_due(failing, Some(sent), now) <==> now >= sent.last_notified_secs + NOTIFY_SUPPRESS_WINDOW_SECS,
{
}

/// How many free bytes a disk must have.
pub const DISK_HEADROOM_WARN_BYTES: u64 = 1_000_000_000;

/// Whether a disk has room enough.
pub fn disk_headroom_ok(free_bytes: u64) -> (r: bool)
    ensures
        r == (free_bytes >= DISK_HEADROOM_WARN_BYTES),
{
    free_bytes >= DISK_HEADROOM_WARN_BYTES
}

} // verus!
