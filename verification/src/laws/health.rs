//! Laws of the health report and its notifications.

use vstd::prelude::*;

use crate::health::{check_line, failed_names, notification_due, report, Check, NotifyStreak};
use crate::laws::prompt::lemma_concat_holds;
use crate::order::{not_after, sorted};
use crate::text::{concat, contains, join};

verus! {

/// The line of a report for a check.
pub open spec fn shown_check(c: Check) -> Seq<char> {
    (if c.ok {
        "[OK] "@
    } else {
        "[FAIL] "@
    }) + c.name@ + ": "@ + c.detail@ + "\n"@
}

/// A report has a line for every check, in their order, and nothing else.
pub proof fn law_report_shows_every_check(checks: Seq<Check>)
    ensures
        report(checks) == concat(checks.map_values(|c: Check| shown_check(c))),
        forall|i: int| 0 <= i < checks.len() ==> contains(report(checks), shown_check(#[trigger] checks[i])),
{
    lemma_report(checks);
    let ps = checks.map_values(|c: Check| shown_check(c));
    assert forall|i: int| 0 <= i < checks.len() implies contains(report(checks), shown_check(#[trigger] checks[i])) by {
        lemma_concat_holds(ps, i);
    }
}

proof fn lemma_report(checks: Seq<Check>)
    ensures
        report(checks) == concat(checks.map_values(|c: Check| shown_check(c))),
    decreases checks.len(),
{
    let ps = checks.map_values(|c: Check| shown_check(c));
    if checks.len() > 0 {
        lemma_report(checks.drop_last());
        assert(ps.drop_last() =~= checks.drop_last().map_values(|c: Check| shown_check(c)));
        reveal_strlit("[");
        reveal_strlit("OK");
        reveal_strlit("FAIL");
        reveal_strlit("] ");
        reveal_strlit("[OK] ");
        reveal_strlit("[FAIL] ");
        assert("["@ + "OK"@ + "] "@ =~= "[OK] "@);
        assert("["@ + "FAIL"@ + "] "@ =~= "[FAIL] "@);
        let c = checks.last();
        assert(check_line(c) =~= shown_check(c));
        assert(report(checks) =~= concat(ps));
    }
}

/// The failing names are those of all checks that failed, in order.
pub proof fn law_every_failure_is_named(checks: Seq<Check>)
    ensures
        failed_names(checks) == checks.filter(|c: Check| !c.ok).map_values(|c: Check| c.name@),
        sorted(failed_names(checks)).to_multiset() == failed_names(checks).to_multiset(),
{
    lemma_failed(checks);
    let leq = |a: Seq<char>, b: Seq<char>| not_after(a, b);
    crate::order::lemma_not_after_is_total_ordering();
    failed_names(checks).lemma_sort_by_ensures(leq);
}

proof fn lemma_failed(checks: Seq<Check>)
    ensures
        failed_names(checks) == checks.filter(|c: Check| !c.ok).map_values(|c: Check| c.name@),
    decreases checks.len(),
{
    reveal(Seq::filter);
    let keep = |c: Check| !c.ok;
    let show = |c: Check| c.name@;
    if checks.len() > 0 {
        lemma_failed(checks.drop_last());
        let c = checks.last();
        let g = checks.drop_last().filter(keep);
        assert(g.push(c).map_values(show) =~= g.map_values(show).push(show(c)));
    } else {
        assert(failed_names(checks) =~= checks.filter(keep).map_values(show));
    }
}

/// A failure is notified at once where it is the first or another than the
/// last, and again after a day; nothing is notified where nothing fails.
pub proof fn law_when_a_failure_is_notified(failing: Seq<Seq<char>>, last: Option<NotifyStreak>, now: u64)
    ensures
        failing.len() == 0 ==> !notification_due(failing, last, now),
        failing.len() > 0 && last is None ==> notification_due(failing, last, now),
        failing.len() > 0 && last is Some && (last->0).key@ != join(failing, ","@) ==> notification_due(failing, last, now),
        failing.len() > 0 && last is Some && (last->0).key@ == join(failing, ","@) ==> (notification_due(failing, last, now)
            <==> now >= (last->0).last_notified_secs + 86_400),
{
}

} // verus!
