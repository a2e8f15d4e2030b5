//! Laws of what version control and the snapshots say of the targets.

use vstd::prelude::*;

use crate::improve::targets::Targets;
use crate::improve::vcs::{
    behind_marks, dirty_targets, git_path, git_paths, has_path, managed_paths, status_paths, unmanaged,
};
use crate::improve::verify::{
    all_changes, below, by_file, copies, copy_of_live, deletions, live_changes, live_names, path_before, place_change, relative,
    root_changes, ChangeView, RootDiff,
};
use crate::laws::text::{all_space, law_trim_of_padded, lemma_own_trim_is_bare};
use crate::numeral::dec;
use crate::path::{is_under, joined_path, same_path};
use crate::text::{
    contains, lemma_rfind_upto, listed, occurs_at, rfind, texts, trim, trim_end, trim_end_of, trim_of, trim_start_of,
};
use crate::width::{chars_in, width};

verus! {

// --- what is managed ---

/// A path is managed where some line of the listing is that path, with any
/// white space around it.
pub proof fn law_every_listed_path_is_managed(ls: Seq<Seq<char>>, p: Seq<char>)
    ensures
        has_path(managed_paths(ls), p) <==> exists|i: int|
            0 <= i < ls.len() && trim(#[trigger] ls[i]).len() > 0 && same_path(trim(ls[i]), p),
    decreases ls.len(),
{
    if ls.len() > 0 {
        let d = ls.drop_last();
        let rest = managed_paths(d);
        let all = managed_paths(ls);
        let x = trim(ls.last());
        law_every_listed_path_is_managed(d, p);
        law_every_listed_path_is_managed(d, x);
        assert(ls[ls.len() - 1] == ls.last());
        if has_path(rest, p) {
            let k = choose|k: int| 0 <= k < rest.len() && same_path(#[trigger] rest[k], p);
            assert(all[k] == rest[k]);
            let i = choose|i: int| 0 <= i < d.len() && trim(#[trigger] d[i]).len() > 0 && same_path(trim(d[i]), p);
            assert(ls[i] == d[i]);
        }
        if has_path(all, p) && !has_path(rest, p) {
            let k = choose|k: int| 0 <= k < all.len() && same_path(#[trigger] all[k], p);
            if k < rest.len() {
                assert(rest[k] == all[k]);
            }
            assert(all[k] == x);
        }
        if exists|i: int| 0 <= i < ls.len() && trim(#[trigger] ls[i]).len() > 0 && same_path(trim(ls[i]), p) {
            let i = choose|i: int| 0 <= i < ls.len() && trim(#[trigger] ls[i]).len() > 0 && same_path(trim(ls[i]), p);
            if i < d.len() {
                assert(d[i] == ls[i]);
            } else if has_path(rest, x) {
                let k = choose|k: int| 0 <= k < rest.len() && same_path(#[trigger] rest[k], x);
                assert(same_path(rest[k], p));
                assert(all == rest);
            } else {
                assert(all[rest.len() as int] == x);
            }
        }
    }
}

/// A target is unmanaged exactly where no managed path lies in it.
pub proof fn law_unmanaged_targets(managed: Seq<Seq<char>>, roots: Seq<Seq<char>>)
    ensures
        unmanaged(managed, roots) == roots.filter(
            |r: Seq<char>| !exists|i: int| 0 <= i < managed.len() && is_under(#[trigger] managed[i], r),
        ),
    decreases roots.len(),
{
    reveal(Seq::filter);
    if roots.len() > 0 {
        law_unmanaged_targets(managed, roots.drop_last());
    }
}

// --- status lines ---

proof fn lemma_width_at_least(s: Seq<char>)
    ensures
        width(s) >= s.len(),
    decreases s.len(),
{
    if s.len() > 0 {
        lemma_width_at_least(s.drop_last());
    }
}

/// A status line is two marks, a space and the path, which reads back.
pub proof fn law_status_line_reads_back(x: char, y: char, p: Seq<char>)
    requires
        (x as u32) < 0x80,
        (y as u32) < 0x80,
        p.len() > 0,
        trim(p) == p,
    ensures
        behind_marks(seq![x, y, ' '] + p) == Some(p),
{
    let l = seq![x, y, ' '] + p;
    lemma_own_trim_is_bare(p);
    assert(l.last() == p.last());
    assert(trim_end(l) == l);
    lemma_width_at_least(l);
    let a = l.drop_first();
    let b = a.drop_first();
    assert(l[0] == x && a[0] == y);
    assert(chars_in(b, 0) == Some(0int));
    assert(chars_in(a, 1) == Some(1int));
    assert(chars_in(l, 2) == Some(2int));
    let sp = seq![' '];
    let none: Seq<char> = Seq::empty();
    assert(l.skip(2) =~= sp + p + none);
    assert(all_space(sp));
    law_trim_of_padded(sp, p, none);
}

/// Every line of a status that has a path gives it, in order.
pub proof fn law_every_status_line_counts(ls: Seq<Seq<char>>)
    ensures
        status_paths(ls) == ls.filter(|l: Seq<char>| behind_marks(l) is Some).map_values(|l: Seq<char>| behind_marks(l)->0),
        git_paths(ls) == ls.filter(|l: Seq<char>| behind_marks(l) is Some).map_values(
            |l: Seq<char>| git_path(behind_marks(l)->0),
        ),
    decreases ls.len(),
{
    reveal(Seq::filter);
    let keep = |l: Seq<char>| behind_marks(l) is Some;
    let show = |l: Seq<char>| behind_marks(l)->0;
    let git = |l: Seq<char>| git_path(behind_marks(l)->0);
    if ls.len() > 0 {
        law_every_status_line_counts(ls.drop_last());
        let l = ls.last();
        let g = ls.drop_last().filter(keep);
        assert(g.push(l).map_values(show) =~= g.map_values(show).push(show(l)));
        assert(g.push(l).map_values(git) =~= g.map_values(git).push(git(l)));
    } else {
        assert(status_paths(ls) =~= ls.filter(keep).map_values(show));
        assert(git_paths(ls) =~= ls.filter(keep).map_values(git));
    }
}

/// Whether a path stands as it is in git's status: without quotes around it
/// and without an arrow in it.
pub open spec fn is_plain_path(p: Seq<char>) -> bool {
    p.len() > 0 && p[0] != '"' && p.last() != '"' && p[0] != ' ' && p[0] != '-' && p[0] != '>' && !contains(p, " -> "@)
}

proof fn lemma_arrow()
    ensures
        " -> "@.len() == 4,
        " -> "@[0] == ' ',
        " -> "@[1] == '-',
        " -> "@[2] == '>',
        " -> "@[3] == ' ',
{
    reveal_strlit(" -> ");
}

proof fn lemma_no_arrow(s: Seq<char>)
    requires
        !contains(s, " -> "@),
    ensures
        rfind(s, " -> "@) == -1,
{
    lemma_rfind_upto(s, " -> "@, s.len() - " -> "@.len());
}

proof fn lemma_no_quotes(p: Seq<char>)
    requires
        is_plain_path(p),
    ensures
        trim_of(p, '"', '"') == p,
        trim_of("\""@ + p + "\""@, '"', '"') == p,
{
    reveal_strlit("\"");
    assert(trim_start_of(p, '"', '"') == p);
    assert(trim_end_of(p, '"', '"') == p);
    let q = "\""@ + p + "\""@;
    let q1 = p + "\""@;
    assert(q[0] == '"');
    assert(q.drop_first() =~= q1);
    assert(q1[0] == p[0]);
    assert(trim_start_of(q1, '"', '"') == q1);
    assert(trim_start_of(q, '"', '"') == q1);
    assert(q1.last() == '"');
    assert(q1.drop_last() =~= p);
    assert(trim_end_of(q1, '"', '"') == p);
}

/// A path in git's status reads back, with quotes around it or without.
pub proof fn law_git_path_reads_back(p: Seq<char>)
    requires
        is_plain_path(p),
    ensures
        git_path(p) == p,
        git_path("\""@ + p + "\""@) == p,
{
    let arrow = " -> "@;
    lemma_arrow();
    lemma_no_quotes(p);
    lemma_no_arrow(p);
    let q = "\""@ + p + "\""@;
    reveal_strlit("\"");
    assert(!contains(q, arrow)) by {
        if contains(q, arrow) {
            let k = choose|k: int| occurs_at(q, arrow, k);
            let w = q.subrange(k, k + 4);
            assert(w == arrow);
            if k == 0 {
                assert(w[0] == q[0]);
            } else if k + 4 == q.len() {
                assert(w[3] == q[q.len() - 1]);
            } else {
                assert(p.subrange(k - 1, k + 3) =~= w);
                assert(occurs_at(p, arrow, k - 1));
            }
        }
    }
    lemma_no_arrow(q);
}

/// Of a renamed file git's status gives the new path.
pub proof fn law_renamed_file_has_its_new_path(a: Seq<char>, p: Seq<char>)
    requires
        is_plain_path(p),
    ensures
        git_path(a + " -> "@ + p) == p,
{
    let arrow = " -> "@;
    lemma_arrow();
    lemma_no_quotes(p);
    let s = a + arrow + p;
    let n = a.len() as int;
    lemma_rfind_upto(s, arrow, s.len() - 4);
    let k = rfind(s, arrow);
    assert(s.subrange(n, n + 4) =~= arrow);
    assert(occurs_at(s, arrow, n));
    assert(k >= n);
    if k > n {
        let w = s.subrange(k, k + 4);
        assert(w == arrow);
        if k >= n + 4 {
            assert(p.subrange(k - n - 4, k - n) =~= w);
            assert(occurs_at(p, arrow, k - n - 4));
        } else if k == n + 3 {
            assert(w[1] == s[k + 1]);
            assert(s[n + 4] == p[0]);
        } else if k == n + 2 {
            assert(w[0] == s[k]);
            assert(s[n + 2] == arrow[2]);
        } else {
            assert(w[0] == s[k]);
            assert(s[n + 1] == arrow[1]);
        }
    }
    assert(s.skip(n + 4) =~= p);
}

/// A target is dirty exactly where some dirty path lies in its source.
pub proof fn law_dirty_targets(targets: Seq<(Seq<char>, Seq<char>)>, src_root: Seq<char>, dirty: Seq<Seq<char>>)
    ensures
        dirty_targets(targets, src_root, dirty) == targets.filter(
            |t: (Seq<char>, Seq<char>)|
                exists|i: int| 0 <= i < dirty.len() && is_under(joined_path(src_root, #[trigger] dirty[i]), t.1),
        ).map_values(|t: (Seq<char>, Seq<char>)| t.0),
    decreases targets.len(),
{
    reveal(Seq::filter);
    let keep = |t: (Seq<char>, Seq<char>)|
        exists|i: int| 0 <= i < dirty.len() && is_under(joined_path(src_root, #[trigger] dirty[i]), t.1);
    let show = |t: (Seq<char>, Seq<char>)| t.0;
    if targets.len() > 0 {
        law_dirty_targets(targets.drop_last(), src_root, dirty);
        let t = targets.last();
        let g = targets.drop_last().filter(keep);
        assert(g.push(t).map_values(show) =~= g.map_values(show).push(show(t)));
    } else {
        assert(dirty_targets(targets, src_root, dirty) =~= targets.filter(keep).map_values(show));
    }
}

// --- what changed ---

/// Whether a root changed so: a file that its copy does not have was added,
/// one that differs from its copy was modified, one that only the copy has was
/// deleted.
pub open spec fn changed_so(d: RootDiff, c: ChangeView) -> bool {
    match c {
        ChangeView::Added(p) => exists|i: int|
            0 <= i < d.live@.len() && p == below(d.root@, (#[trigger] d.live@[i]).0@) && !listed(texts(d.copy@), d.live@[i].0@),
        ChangeView::Modified(p) => exists|i: int|
            0 <= i < d.live@.len() && p == below(d.root@, (#[trigger] d.live@[i]).0@) && listed(texts(d.copy@), d.live@[i].0@)
                && !d.live@[i].1,
        ChangeView::Deleted(p) => exists|i: int|
            0 <= i < d.copy@.len() && p == below(d.root@, #[trigger] texts(d.copy@)[i]) && !listed(
                live_names(d.live@),
                texts(d.copy@)[i],
            ),
    }
}

/// Whether a live file changed so.
spec fn live_changed_so(root: Seq<char>, live: Seq<(String, bool)>, copy: Seq<Seq<char>>, c: ChangeView) -> bool {
    exists|i: int|
        0 <= i < live.len() && #[trigger] one_change(root, live[i], copy) == Some(c)
}

spec fn one_change(root: Seq<char>, f: (String, bool), copy: Seq<Seq<char>>) -> Option<ChangeView> {
    if !listed(copy, f.0@) {
        Some(ChangeView::Added(below(root, f.0@)))
    } else if !f.1 {
        Some(ChangeView::Modified(below(root, f.0@)))
    } else {
        None
    }
}

proof fn lemma_live_changes(root: Seq<char>, live: Seq<(String, bool)>, copy: Seq<Seq<char>>, c: ChangeView)
    ensures
        live_changes(root, live, copy).contains(c) <==> live_changed_so(root, live, copy, c),
    decreases live.len(),
{
    let all = live_changes(root, live, copy);
    if live.len() > 0 {
        let d = live.drop_last();
        let rest = live_changes(root, d, copy);
        lemma_live_changes(root, d, copy, c);
        assert(live[live.len() - 1] == live.last());
        let own = one_change(root, live.last(), copy);
        if rest.contains(c) {
            let k = choose|k: int| 0 <= k < rest.len() && rest[k] == c;
            assert(all[k] == c);
            let i = choose|i: int| 0 <= i < d.len() && #[trigger] one_change(root, d[i], copy) == Some(c);
            assert(one_change(root, live[i], copy) == Some(c));
        }
        if own == Some(c) {
            assert(all[rest.len() as int] == c);
            assert(one_change(root, live[live.len() - 1], copy) == Some(c));
        }
        if all.contains(c) && !rest.contains(c) {
            let k = choose|k: int| 0 <= k < all.len() && all[k] == c;
            if k < rest.len() {
                assert(rest[k] == c);
            }
            assert(own == Some(c));
        }
        if live_changed_so(root, live, copy, c) && !live_changed_so(root, d, copy, c) {
            let i = choose|i: int| 0 <= i < live.len() && #[trigger] one_change(root, live[i], copy) == Some(c);
            if i < d.len() {
                assert(one_change(root, d[i], copy) == Some(c));
            }
        }
    }
}

proof fn lemma_deletions(root: Seq<char>, copy: Seq<Seq<char>>, live: Seq<Seq<char>>, c: ChangeView)
    ensures
        deletions(root, copy, live).contains(c) <==> exists|i: int|
            0 <= i < copy.len() && c == ChangeView::Deleted(below(root, #[trigger] copy[i])) && !listed(live, copy[i]),
    decreases copy.len(),
{
    let all = deletions(root, copy, live);
    if copy.len() > 0 {
        let d = copy.drop_last();
        let rest = deletions(root, d, live);
        lemma_deletions(root, d, live, c);
        assert(copy[copy.len() - 1] == copy.last());
        let own = ChangeView::Deleted(below(root, copy.last()));
        if rest.contains(c) {
            let k = choose|k: int| 0 <= k < rest.len() && rest[k] == c;
            assert(all[k] == c);
            let i = choose|i: int|
                0 <= i < d.len() && c == ChangeView::Deleted(below(root, #[trigger] d[i])) && !listed(live, d[i]);
            assert(copy[i] == d[i]);
        }
        if !listed(live, copy.last()) {
            assert(all[rest.len() as int] == own);
        }
        if all.contains(c) && !rest.contains(c) {
            let k = choose|k: int| 0 <= k < all.len() && all[k] == c;
            if k < rest.len() {
                assert(rest[k] == c);
            }
            assert(own == c);
        }
        if (exists|i: int|
            0 <= i < copy.len() && c == ChangeView::Deleted(below(root, #[trigger] copy[i])) && !listed(live, copy[i]))
            && !rest.contains(c) {
            let i = choose|i: int|
                0 <= i < copy.len() && c == ChangeView::Deleted(below(root, #[trigger] copy[i])) && !listed(live, copy[i]);
            if i < d.len() {
                assert(d[i] == copy[i]);
            }
        }
    }
}

proof fn lemma_root_changes(d: RootDiff, c: ChangeView)
    ensures
        root_changes(d).contains(c) <==> changed_so(d, c),
{
    let copy = texts(d.copy@);
    let a = live_changes(d.root@, d.live@, copy);
    let b = deletions(d.root@, copy, live_names(d.live@));
    let all = root_changes(d);
    lemma_live_changes(d.root@, d.live@, copy, c);
    lemma_deletions(d.root@, copy, live_names(d.live@), c);
    if all.contains(c) {
        let k = choose|k: int| 0 <= k < all.len() && all[k] == c;
        if k < a.len() {
            assert(a[k] == c);
        } else {
            assert(b[k - a.len()] == c);
        }
    }
    if a.contains(c) {
        let k = choose|k: int| 0 <= k < a.len() && a[k] == c;
        assert(all[k] == c);
        let i = choose|i: int| 0 <= i < d.live@.len() && #[trigger] one_change(d.root@, d.live@[i], copy) == Some(c);
        assert(d.live@[i] == d.live@[i]);
    }
    if b.contains(c) {
        let k = choose|k: int| 0 <= k < b.len() && b[k] == c;
        assert(all[a.len() + k] == c);
        let i = choose|i: int|
            0 <= i < copy.len() && c == ChangeView::Deleted(below(d.root@, #[trigger] copy[i])) && !listed(
                live_names(d.live@),
                copy[i],
            );
        assert(texts(d.copy@)[i] == copy[i]);
    }
    if changed_so(d, c) {
        match c {
            ChangeView::Added(p) => {
                let i = choose|i: int|
                    0 <= i < d.live@.len() && p == below(d.root@, (#[trigger] d.live@[i]).0@) && !listed(copy, d.live@[i].0@);
                assert(one_change(d.root@, d.live@[i], copy) == Some(c));
            },
            ChangeView::Modified(p) => {
                let i = choose|i: int|
                    0 <= i < d.live@.len() && p == below(d.root@, (#[trigger] d.live@[i]).0@) && listed(copy, d.live@[i].0@)
                        && !d.live@[i].1;
                assert(one_change(d.root@, d.live@[i], copy) == Some(c));
            },
            ChangeView::Deleted(p) => {
                let i = choose|i: int|
                    0 <= i < d.copy@.len() && p == below(d.root@, #[trigger] texts(d.copy@)[i]) && !listed(
                        live_names(d.live@),
                        texts(d.copy@)[i],
                    );
                assert(copy[i] == texts(d.copy@)[i]);
            },
        }
    }
}

proof fn lemma_all_changes(ds: Seq<RootDiff>, c: ChangeView)
    ensures
        all_changes(ds).contains(c) <==> exists|i: int| 0 <= i < ds.len() && changed_so(#[trigger] ds[i], c),
    decreases ds.len(),
{
    if ds.len() > 0 {
        let d = ds.drop_last();
        let a = all_changes(d);
        let b = root_changes(ds.last());
        let all = all_changes(ds);
        lemma_all_changes(d, c);
        lemma_root_changes(ds.last(), c);
        assert(ds[ds.len() - 1] == ds.last());
        if all.contains(c) {
            let k = choose|k: int| 0 <= k < all.len() && all[k] == c;
            if k < a.len() {
                assert(a[k] == c);
                let i = choose|i: int| 0 <= i < d.len() && changed_so(#[trigger] d[i], c);
                assert(ds[i] == d[i]);
            } else {
                assert(b[k - a.len()] == c);
            }
        }
        if exists|i: int| 0 <= i < ds.len() && changed_so(#[trigger] ds[i], c) {
            let i = choose|i: int| 0 <= i < ds.len() && changed_so(#[trigger] ds[i], c);
            if i < d.len() {
                assert(d[i] == ds[i]);
                let k = choose|k: int| 0 <= k < a.len() && a[k] == c;
                assert(all[k] == c);
            } else {
                let k = choose|k: int| 0 <= k < b.len() && b[k] == c;
                assert(all[a.len() + k] == c);
            }
        }
    }
}

proof fn lemma_place_change(s: Seq<ChangeView>, x: ChangeView)
    ensures
        place_change(s, x).to_multiset() == s.to_multiset().insert(x),
    decreases s.len(),
{
    broadcast use vstd::seq_lib::group_to_multiset_ensures;

    if s.len() > 0 && path_before(x.file(), s.last().file()) {
        lemma_place_change(s.drop_last(), x);
        assert(s.drop_last().push(s.last()) =~= s);
        assert(place_change(s, x).to_multiset() =~= s.to_multiset().insert(x));
    }
}

proof fn lemma_by_file(cs: Seq<ChangeView>)
    ensures
        by_file(cs).to_multiset() == cs.to_multiset(),
    decreases cs.len(),
{
    broadcast use vstd::seq_lib::group_to_multiset_ensures;

    if cs.len() > 0 {
        lemma_by_file(cs.drop_last());
        lemma_place_change(by_file(cs.drop_last()), cs.last());
        assert(cs.drop_last().push(cs.last()) =~= cs);
    }
}

/// The changes of a run are those of its roots, every one of them and no other:
/// what was added, what was modified and what was deleted.
pub proof fn law_every_change_is_found(ds: Seq<RootDiff>, c: ChangeView)
    ensures
        by_file(all_changes(ds)).contains(c) <==> exists|i: int| 0 <= i < ds.len() && changed_so(#[trigger] ds[i], c),
        by_file(all_changes(ds)).to_multiset() == all_changes(ds).to_multiset(),
{
    broadcast use vstd::seq_lib::group_to_multiset_ensures;

    lemma_by_file(all_changes(ds));
    lemma_all_changes(ds, c);
    assert(by_file(all_changes(ds)).to_multiset().count(c) > 0 <==> all_changes(ds).to_multiset().count(c) > 0);
}

// --- snapshots ---

/// A snapshot has a copy of every target, under its number.
pub proof fn law_snapshot_copies_every_target(t: Targets, dest: Seq<char>)
    ensures
        copies(t.root_paths(), dest).len() == 4,
        forall|i: int|
            0 <= i < 4 ==> #[trigger] copies(t.root_paths(), dest)[i] == (t.root_paths()[i], joined_path(dest, dec(i))),
        t.root_paths().contains(t.skills_dir@),
        t.root_paths().contains(t.claude_md@),
        t.root_paths().contains(t.settings_json@),
        t.root_paths().contains(t.hooks_dir@),
{
    let r = t.root_paths();
    assert(r.contains(r[0]) && r.contains(r[1]) && r.contains(r[2]) && r.contains(r[3]));
}

/// A live file has its copy where the first root that it lies in has one, at
/// the same place below it; a file in no root has none.
pub proof fn law_copy_of_a_live_file(roots: Seq<(Seq<char>, Seq<char>)>, live: Seq<char>, i: int)
    ensures
        (forall|j: int| 0 <= j < roots.len() ==> !is_under(live, (#[trigger] roots[j]).0)) ==> copy_of_live(roots, live) is None,
        0 <= i < roots.len() && is_under(live, roots[i].0) && (forall|j: int|
            0 <= j < i ==> !is_under(live, (#[trigger] roots[j]).0)) ==> copy_of_live(roots, live) == Some(
            if same_path(live, roots[i].0) {
                roots[i].1
            } else {
                joined_path(roots[i].1, relative(live, roots[i].0))
            },
        ),
    decreases roots.len(),
{
    if roots.len() > 0 {
        let d = roots.drop_first();
        law_copy_of_a_live_file(d, live, i - 1);
        crate::laws::path::law_same_paths_are_under_each_other(live, roots[0].0);
        if forall|j: int| 0 <= j < roots.len() ==> !is_under(live, (#[trigger] roots[j]).0) {
            assert(!is_under(live, roots[0].0));
            assert forall|j: int| 0 <= j < d.len() implies !is_under(live, (#[trigger] d[j]).0) by {
                assert(d[j] == roots[j + 1]);
            }
        }
        if 0 < i < roots.len() && is_under(live, roots[i].0) && (forall|j: int|
            0 <= j < i ==> !is_under(live, (#[trigger] roots[j]).0)) {
            assert(!is_under(live, roots[0].0));
            assert(d[i - 1] == roots[i]);
            assert forall|j: int| 0 <= j < i - 1 implies !is_under(live, (#[trigger] d[j]).0) by {
                assert(d[j] == roots[j + 1]);
            }
        }
    }
}

} // verus!
