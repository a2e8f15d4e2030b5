//! Laws of the improvement runs: which changes stand, and how the files and
//! replies around them are read.

use vstd::prelude::*;

use crate::improve::checks::{check_of, first_complaint, FileCheck};
use crate::improve::targets::Targets;
use crate::improve::verify::ChangeView;
use crate::path::{file_name, is_under, same_path};

verus! {

// --- which changes stand ---

/// Whether a file is one that a check looks into: the guide, the settings, a
/// hook, or what a skill begins with.
pub open spec fn is_checked_file(p: Seq<char>, t: Targets) -> bool {
    ||| same_path(p, t.claude_md@)
    ||| same_path(p, t.settings_json@)
    ||| is_under(p, t.hooks_dir@)
    ||| is_under(p, t.skills_dir@) && file_name(p) == Some("SKILL.md"@)
}

/// Whether a file lies in one of the four targets.
pub open spec fn is_inside(p: Seq<char>, t: Targets) -> bool {
    ||| is_under(p, t.skills_dir@)
    ||| is_under(p, t.claude_md@)
    ||| is_under(p, t.settings_json@)
    ||| is_under(p, t.hooks_dir@)
}

/// Whether a change may stand: its file is inside the targets, and it either
/// deletes another file than the two single ones, or adds or modifies a file
/// whose check found nothing.
pub open spec fn may_stand(c: ChangeView, t: Targets, check: Result<(), String>) -> bool {
    is_inside(c.file(), t) && match c {
        ChangeView::Deleted(p) => !same_path(p, t.claude_md@) && !same_path(p, t.settings_json@),
        ChangeView::Added(p) => is_checked_file(p, t) ==> check is Ok,
        ChangeView::Modified(p) => is_checked_file(p, t) ==> check is Ok,
    }
}

/// The changes of a run stand if and only if each of them may.
pub proof fn law_changes_stand_together(cs: Seq<ChangeView>, t: Targets, checks: Seq<Result<(), String>>)
    requires
        checks.len() == cs.len(),
    ensures
        first_complaint(cs, t, checks) is None <==> forall|i: int|
            0 <= i < cs.len() ==> may_stand(#[trigger] cs[i], t, checks[i]),
    decreases cs.len(),
{
    if cs.len() > 0 {
        let d = cs.drop_first();
        let k = checks.drop_first();
        law_changes_stand_together(d, t, k);
        if first_complaint(cs, t, checks) is None {
            assert forall|i: int| 0 <= i < cs.len() implies may_stand(#[trigger] cs[i], t, checks[i]) by {
                if i > 0 {
                    assert(d[i - 1] == cs[i]);
                    assert(k[i - 1] == checks[i]);
                    assert(may_stand(d[i - 1], t, k[i - 1]));
                }
            }
        }
        if forall|i: int| 0 <= i < cs.len() ==> may_stand(#[trigger] cs[i], t, checks[i]) {
            assert(may_stand(cs[0], t, checks[0]));
            assert forall|i: int| 0 <= i < d.len() implies may_stand(#[trigger] d[i], t, k[i]) by {
                assert(may_stand(cs[i + 1], t, checks[i + 1]));
            }
        }
    }
}

/// Where the changes stand, the check of every file that was added or modified
/// and that a check looks into found nothing.
pub proof fn law_standing_changes_passed_their_checks(cs: Seq<ChangeView>, t: Targets, checks: Seq<Result<(), String>>)
    requires
        checks.len() == cs.len(),
        first_complaint(cs, t, checks) is None,
    ensures
        forall|i: int|
            0 <= i < cs.len() && !(#[trigger] cs[i] is Deleted) && (same_path(cs[i].file(), t.claude_md@) || same_path(
                cs[i].file(),
                t.settings_json@,
            ) || is_under(cs[i].file(), t.hooks_dir@) || (is_under(cs[i].file(), t.skills_dir@) && file_name(cs[i].file())
                == Some("SKILL.md"@))) ==> checks[i] is Ok,
{
    law_changes_stand_together(cs, t, checks);
    assert forall|i: int|
        0 <= i < cs.len() && !(#[trigger] cs[i] is Deleted) && (same_path(cs[i].file(), t.claude_md@) || same_path(
            cs[i].file(),
            t.settings_json@,
        ) || is_under(cs[i].file(), t.hooks_dir@) || (is_under(cs[i].file(), t.skills_dir@) && file_name(cs[i].file())
            == Some("SKILL.md"@))) implies checks[i] is Ok by {
        assert(may_stand(cs[i], t, checks[i]));
    }
}

/// What is said of changes that do not stand is said of the first one that may
/// not: that it is outside, that it is deleted, or what its check found.
pub proof fn law_first_bad_change_is_named(cs: Seq<ChangeView>, t: Targets, checks: Seq<Result<(), String>>, i: int)
    requires
        checks.len() == cs.len(),
        0 <= i < cs.len(),
        !may_stand(cs[i], t, checks[i]),
        forall|j: int| 0 <= j < i ==> may_stand(#[trigger] cs[j], t, checks[j]),
    ensures
        !is_inside(cs[i].file(), t) ==> first_complaint(cs, t, checks) == Some(
            cs[i].file() + ": "@ + "outside write targets"@,
        ),
        is_inside(cs[i].file(), t) && cs[i] is Deleted ==> first_complaint(cs, t, checks) == Some(
            cs[i].file() + ": "@ + "deleted"@,
        ),
        is_inside(cs[i].file(), t) && !(cs[i] is Deleted) ==> checks[i] is Err && first_complaint(cs, t, checks) == Some(
            checks[i]->Err_0@,
        ),
    decreases i,
{
    if i > 0 {
        assert(may_stand(cs[0], t, checks[0]));
        let d = cs.drop_first();
        let k = checks.drop_first();
        assert(d[i - 1] == cs[i]);
        assert(k[i - 1] == checks[i]);
        assert forall|j: int| 0 <= j < i - 1 implies may_stand(#[trigger] d[j], t, k[j]) by {
            assert(may_stand(cs[j + 1], t, checks[j + 1]));
        }
        law_first_bad_change_is_named(d, t, k, i - 1);
    }
}

/// Which check a file that was added or modified has to pass is decided by the
/// place where it lies; what is deleted has none to pass.
pub proof fn law_every_checked_file_has_its_check(p: Seq<char>, t: Targets)
    ensures
        check_of(ChangeView::Added(p), t) == check_of(ChangeView::Modified(p), t),
        check_of(ChangeView::Deleted(p), t) == FileCheck::Nothing,
        same_path(p, t.claude_md@) ==> check_of(ChangeView::Added(p), t) == FileCheck::Rules,
        same_path(p, t.settings_json@) && !same_path(p, t.claude_md@) ==> check_of(ChangeView::Added(p), t)
            == FileCheck::Settings,
        is_under(p, t.hooks_dir@) && !same_path(p, t.claude_md@) && !same_path(p, t.settings_json@) ==> check_of(
            ChangeView::Added(p),
            t,
        ) == FileCheck::Hook,
        is_under(p, t.skills_dir@) && !is_under(p, t.hooks_dir@) && !same_path(p, t.claude_md@) && !same_path(
            p,
            t.settings_json@,
        ) ==> check_of(ChangeView::Added(p), t) == (if file_name(p) == Some("SKILL.md"@) {
            FileCheck::Skill
        } else {
            FileCheck::Nothing
        }),
        !is_checked_file(p, t) ==> check_of(ChangeView::Added(p), t) == FileCheck::Nothing,
{
}

} // verus!
