//! Whether what a run changed stands: every change inside the targets, and
//! every changed file sound in its kind.

use vstd::prelude::*;

use crate::code_index::rows::opt_view;
use crate::code_index::scope::{pair_view, pairs_view};
use crate::improve::targets::Targets;
use crate::numeral::{dec, push_usize};
use crate::path::{components, is_under, join_path, joined_path, path_under, paths_equal, same_path};
use crate::text::{chars_of, in_list, join, joined_texts, lemma_texts_push, listed, owned, same_text, string_of, texts};

verus! {

// --- changes ---

/// What happened to one file.
#[derive(Debug, Clone, PartialEq, Eq)]
pub enum Change {
    Added(String),
    Modified(String),
    Deleted(String),
}

/// What a change says.
pub ghost enum ChangeView {
    Added(Seq<char>),
    Modified(Seq<char>),
    Deleted(Seq<char>),
}

impl View for Change {
    type V = ChangeView;

    open spec fn view(&self) -> ChangeView {
        match *self {
            Change::Added(p) => ChangeView::Added(p@),
            Change::Modified(p) => ChangeView::Modified(p@),
            Change::Deleted(p) => ChangeView::Deleted(p@),
        }
    }
}

impl ChangeView {
    /// The file that changed.
    pub open spec fn file(self) -> Seq<char> {
        match self {
            ChangeView::Added(p) => p,
            ChangeView::Modified(p) => p,
            ChangeView::Deleted(p) => p,
        }
    }
}

impl Change {
    /// The file that changed.
    pub fn path(&self) -> (r: &str)
        ensures
            r@ == self@.file(),
    {
        match self {
            Change::Added(p) => p.as_str(),
            Change::Modified(p) => p.as_str(),
            Change::Deleted(p) => p.as_str(),
        }
    }
}

pub open spec fn changes_view(v: Seq<Change>) -> Seq<ChangeView> {
    Seq::new(v.len(), |i: int| v[i]@)
}

/// A target root and its copy from before the run: the files in each, relative
/// to it, and of each file in the root whether it is the same as its copy.
#[derive(Debug, Clone)]
pub struct RootDiff {
    pub root: String,
    pub live: Vec<(String, bool)>,
    pub copy: Vec<String>,
}

/// A file below a root; the root itself where the relative path is empty.
pub open spec fn below(root: Seq<char>, rel: Seq<char>) -> Seq<char> {
    if rel.len() == 0 {
        root
    } else {
        joined_path(root, rel)
    }
}

/// The files that were added or modified below a root.
pub open spec fn live_changes(root: Seq<char>, live: Seq<(String, bool)>, copy: Seq<Seq<char>>) -> Seq<ChangeView>
    decreases live.len(),
{
    if live.len() == 0 {
        Seq::empty()
    } else {
        let rest = live_changes(root, live.drop_last(), copy);
        let (rel, same_as_copy) = live.last();
        if !listed(copy, rel@) {
            rest.push(ChangeView::Added(below(root, rel@)))
        } else if !same_as_copy {
            rest.push(ChangeView::Modified(below(root, rel@)))
        } else {
            rest
        }
    }
}

pub open spec fn live_names(live: Seq<(String, bool)>) -> Seq<Seq<char>> {
    Seq::new(live.len(), |i: int| live[i].0@)
}

/// The files that were deleted below a root.
pub open spec fn deletions(root: Seq<char>, copy: Seq<Seq<char>>, live: Seq<Seq<char>>) -> Seq<ChangeView>
    decreases copy.len(),
{
    if copy.len() == 0 {
        Seq::empty()
    } else {
        let rest = deletions(root, copy.drop_last(), live);
        if listed(live, copy.last()) {
            rest
        } else {
            rest.push(ChangeView::Deleted(below(root, copy.last())))
        }
    }
}

/// What changed below a root.
pub open spec fn root_changes(d: RootDiff) -> Seq<ChangeView> {
    live_changes(d.root@, d.live@, texts(d.copy@)) + deletions(d.root@, texts(d.copy@), live_names(d.live@))
}

/// What changed below all the roots.
pub open spec fn all_changes(ds: Seq<RootDiff>) -> Seq<ChangeView>
    decreases ds.len(),
{
    if ds.len() == 0 {
        Seq::empty()
    } else {
        all_changes(ds.drop_last()) + root_changes(ds.last())
    }
}

/// How a component of a path ranks before any name.
pub open spec fn component_rank(c: Seq<char>) -> int {
    if c == "/"@ {
        0
    } else if c == "."@ {
        1
    } else if c == ".."@ {
        2
    } else {
        3
    }
}

/// Whether a component comes before another.
pub open spec fn component_before(a: Seq<char>, b: Seq<char>) -> bool {
    component_rank(a) < component_rank(b) || (component_rank(a) == component_rank(b) && crate::order::before(a, b))
}

/// Whether a list of components comes before another: at the first place where
/// they differ, or by ending there.
pub open spec fn components_before(a: Seq<Seq<char>>, b: Seq<Seq<char>>) -> bool
    decreases a.len(),
{
    if b.len() == 0 {
        false
    } else if a.len() == 0 {
        true
    } else if a[0] != b[0] {
        component_before(a[0], b[0])
    } else {
        components_before(a.drop_first(), b.drop_first())
    }
}

/// Whether a path comes before another.
pub open spec fn path_before(a: Seq<char>, b: Seq<char>) -> bool {
    components_before(components(a), components(b))
}

/// `s` with `x` behind every change whose path does not come after its own.
pub open spec fn place_change(s: Seq<ChangeView>, x: ChangeView) -> Seq<ChangeView>
    decreases s.len(),
{
    if s.len() > 0 && path_before(x.file(), s.last().file()) {
        place_change(s.drop_last(), x).push(s.last())
    } else {
        s.push(x)
    }
}

/// The changes in order of their paths.
pub open spec fn by_file(cs: Seq<ChangeView>) -> Seq<ChangeView>
    decreases cs.len(),
{
    if cs.len() == 0 {
        Seq::empty()
    } else {
        place_change(by_file(cs.drop_last()), cs.last())
    }
}

fn comes_first(a: &Vec<String>, b: &Vec<String>) -> (r: bool)
    ensures
        r == components_before(texts(a@), texts(b@)),
{
    let ghost av = texts(a@);
    let ghost bv = texts(b@);
    let mut i: usize = 0;
    assert(av.skip(0) =~= av);
    assert(bv.skip(0) =~= bv);
    while i < a.len() && i < b.len()
        invariant
            i <= a@.len(),
            i <= b@.len(),
            av == texts(a@),
            bv == texts(b@),
            components_before(av, bv) == components_before(av.skip(i as int), bv.skip(i as int)),
        decreases a@.len() - i,
    {
        assert(av.skip(i as int)[0] == a@[i as int]@);
        assert(bv.skip(i as int)[0] == b@[i as int]@);
        if !same_text(a[i].as_str(), b[i].as_str()) {
            let x: usize = rank_of(a[i].as_str());
            let y: usize = rank_of(b[i].as_str());
            return x < y || (x == y && crate::order::text_before(a[i].as_str(), b[i].as_str()));
        }
        assert(av.skip(i as int).drop_first() =~= av.skip(i + 1));
        assert(bv.skip(i as int).drop_first() =~= bv.skip(i + 1));
        i = i + 1;
    }
    i < b.len()
}

fn rank_of(c: &str) -> (r: usize)
    ensures
        r == component_rank(c@),
{
    if same_text(c, "/") {
        0
    } else if same_text(c, ".") {
        1
    } else if same_text(c, "..") {
        2
    } else {
        3
    }
}

fn precedes(a: &str, b: &str) -> (r: bool)
    ensures
        r == path_before(a@, b@),
{
    let ac = crate::path::path_components(a);
    let bc = crate::path::path_components(b);
    comes_first(&ac, &bc)
}

proof fn lemma_place_change(s: Seq<ChangeView>, x: ChangeView, k: int)
    requires
        0 <= k <= s.len(),
        forall|j: int| k <= j < s.len() ==> path_before(x.file(), (#[trigger] s[j]).file()),
        k > 0 ==> !path_before(x.file(), s[k - 1].file()),
    ensures
        place_change(s, x) == s.insert(k, x),
    decreases s.len(),
{
    if s.len() > 0 && path_before(x.file(), s.last().file()) {
        let d = s.drop_last();
        assert(k < s.len());
        assert forall|j: int| k <= j < d.len() implies path_before(x.file(), (#[trigger] d[j]).file()) by {
            assert(d[j] == s[j]);
        }
        lemma_place_change(d, x, k);
        assert(d.insert(k, x).push(s.last()) =~= s.insert(k, x));
    } else {
        assert(k == s.len()) by {
            if k < s.len() {
                assert(path_before(x.file(), s[s.len() - 1].file()));
            }
        }
        assert(s.push(x) =~= s.insert(k, x));
    }
}

fn add_change(out: &mut Vec<Change>, c: Change, Ghost(base): Ghost<Seq<ChangeView>>)
    requires
        changes_view(old(out)@) == by_file(base),
    ensures
        changes_view(final(out)@) == by_file(base.push(c@)),
{
    let ghost q = changes_view(out@);
    let mut k: usize = out.len();
    while k > 0 && precedes(c.path(), out[k - 1].path())
        invariant
            k <= out@.len(),
            q == changes_view(out@),
            forall|j: int| k <= j < q.len() ==> path_before(c@.file(), (#[trigger] q[j]).file()),
        decreases k,
    {
        k = k - 1;
    }
    proof {
        lemma_place_change(q, c@, k as int);
        assert(base.push(c@).drop_last() =~= base);
    }
    out.insert(k, c);
    assert(changes_view(out@) =~= q.insert(k as int, c@));
}

fn path_below(root: &str, rel: &str) -> (r: String)
    ensures
        r@ == below(root@, rel@),
{
    let rc = chars_of(rel);
    if rc.len() == 0 {
        owned(root)
    } else {
        join_path(root, rel)
    }
}

fn is_live(live: &Vec<(String, bool)>, rel: &str) -> (r: bool)
    ensures
        r == listed(live_names(live@), rel@),
{
    let ghost lv = live_names(live@);
    let mut i: usize = 0;
    while i < live.len()
        invariant
            i <= live@.len(),
            lv == live_names(live@),
            forall|j: int| 0 <= j < i ==> #[trigger] lv[j] != rel@,
        decreases live@.len() - i,
    {
        if same_text(live[i].0.as_str(), rel) {
            assert(lv[i as int] == rel@);
            return true;
        }
        i = i + 1;
    }
    false
}

/// What a run changed, in order of the paths, given the files of each target
/// now and before.
pub fn changed_files(diffs: &Vec<RootDiff>) -> (r: Vec<Change>)
    ensures
        changes_view(r@) == by_file(all_changes(diffs@)),
{
    let mut out: Vec<Change> = Vec::new();
    let mut n: usize = 0;
    assert(changes_view(out@) =~= by_file(all_changes(diffs@.take(0))));
    while n < diffs.len()
        invariant
            n <= diffs@.len(),
            changes_view(out@) == by_file(all_changes(diffs@.take(n as int))),
        decreases diffs@.len() - n,
    {
        let d: &RootDiff = &diffs[n];
        let ghost base = all_changes(diffs@.take(n as int));
        let ghost copy = texts(d.copy@);
        let ghost root = d.root@;
        let mut i: usize = 0;
        assert(base + live_changes(root, d.live@.take(0), copy) =~= base);
        while i < d.live.len()
            invariant
                i <= d.live@.len(),
                copy == texts(d.copy@),
                root == d.root@,
                changes_view(out@) == by_file(base + live_changes(root, d.live@.take(i as int), copy)),
            decreases d.live@.len() - i,
        {
            assert(d.live@.take(i + 1).drop_last() =~= d.live@.take(i as int));
            let ghost sofar = base + live_changes(root, d.live@.take(i as int), copy);
            let rel: &str = d.live[i].0.as_str();
            if !in_list(&d.copy, rel) {
                let c = Change::Added(path_below(d.root.as_str(), rel));
                add_change(&mut out, c, Ghost(sofar));
                assert(sofar.push(c@) =~= base + live_changes(root, d.live@.take(i + 1), copy));
            } else if !d.live[i].1 {
                let c = Change::Modified(path_below(d.root.as_str(), rel));
                add_change(&mut out, c, Ghost(sofar));
                assert(sofar.push(c@) =~= base + live_changes(root, d.live@.take(i + 1), copy));
            }
            i = i + 1;
        }
        assert(d.live@.take(i as int) =~= d.live@);
        let ghost mid = base + live_changes(root, d.live@, copy);
        let ghost names = live_names(d.live@);
        let mut j: usize = 0;
        assert(mid + deletions(root, copy.take(0), names) =~= mid);
        while j < d.copy.len()
            invariant
                j <= d.copy@.len(),
                copy == texts(d.copy@),
                names == live_names(d.live@),
                root == d.root@,
                changes_view(out@) == by_file(mid + deletions(root, copy.take(j as int), names)),
            decreases d.copy@.len() - j,
        {
            assert(copy.take(j + 1).drop_last() =~= copy.take(j as int));
            let ghost sofar = mid + deletions(root, copy.take(j as int), names);
            let rel: &str = d.copy[j].as_str();
            assert(copy.take(j + 1).last() == rel@);
            if !is_live(&d.live, rel) {
                let c = Change::Deleted(path_below(d.root.as_str(), rel));
                add_change(&mut out, c, Ghost(sofar));
                assert(sofar.push(c@) =~= mid + deletions(root, copy.take(j + 1), names));
            }
            j = j + 1;
        }
        assert(copy.take(j as int) =~= copy);
        assert(diffs@.take(n + 1).drop_last() =~= diffs@.take(n as int));
        assert(base + root_changes(*d) =~= mid + deletions(root, copy, names));
        n = n + 1;
    }
    assert(diffs@.take(n as int) =~= diffs@);
    out
}

/// A root that is as it was before the run has no change.
pub proof fn law_unchanged_root_has_no_change(d: RootDiff)
    requires
        live_names(d.live@) == texts(d.copy@),
        forall|i: int| 0 <= i < d.live@.len() ==> (#[trigger] d.live@[i]).1,
    ensures
        root_changes(d).len() == 0,
{
    lemma_live_same(d.root@, d.live@, texts(d.copy@), d.live@.len() as int);
    lemma_none_deleted(d.root@, texts(d.copy@), live_names(d.live@), d.copy@.len() as int);
    assert(d.live@.take(d.live@.len() as int) =~= d.live@);
    assert(texts(d.copy@).take(d.copy@.len() as int) =~= texts(d.copy@));
}

proof fn lemma_live_same(root: Seq<char>, live: Seq<(String, bool)>, copy: Seq<Seq<char>>, n: int)
    requires
        0 <= n <= live.len(),
        live_names(live) == copy,
        forall|i: int| 0 <= i < live.len() ==> (#[trigger] live[i]).1,
    ensures
        live_changes(root, live.take(n), copy).len() == 0,
    decreases n,
{
    if n > 0 {
        lemma_live_same(root, live, copy, n - 1);
        assert(live.take(n).drop_last() =~= live.take(n - 1));
        assert(copy[n - 1] == live[n - 1].0@);
        assert(live[n - 1].1);
    }
}

proof fn lemma_none_deleted(root: Seq<char>, copy: Seq<Seq<char>>, live: Seq<Seq<char>>, n: int)
    requires
        0 <= n <= copy.len(),
        live == copy,
    ensures
        deletions(root, copy.take(n), live).len() == 0,
    decreases n,
{
    if n > 0 {
        lemma_none_deleted(root, copy, live, n - 1);
        assert(copy.take(n).drop_last() =~= copy.take(n - 1));
        assert(live[n - 1] == copy[n - 1]);
    }
}

// --- the snapshot ---

/// Where the copies of the target roots are kept: each root with its copy.
#[derive(Debug, Clone)]
pub struct Snapshot {
    pub dir: String,
    pub roots: Vec<(String, String)>,
}

/// The copies of the roots below a directory, numbered in order.
pub open spec fn copies(roots: Seq<Seq<char>>, dest: Seq<char>) -> Seq<(Seq<char>, Seq<char>)> {
    Seq::new(roots.len(), |i: int| (roots[i], joined_path(dest, dec(i))))
}

/// Lays out a snapshot of the targets below a directory. A root that does not
/// exist has its place too, so that it can be told from one that was created.
pub fn snapshot_layout(targets: &Targets, dest: &str) -> (r: Snapshot)
    ensures
        r.dir@ == dest@,
        pairs_view(r.roots@) == copies(targets.root_paths(), dest@),
{
    let all = targets.roots();
    let ghost av = texts(all@);
    let mut roots: Vec<(String, String)> = Vec::new();
    let mut i: usize = 0;
    assert(pairs_view(roots@) =~= copies(av.take(0), dest@));
    while i < all.len()
        invariant
            i <= all@.len(),
            av == texts(all@),
            pairs_view(roots@) == copies(av.take(i as int), dest@),
        decreases all@.len() - i,
    {
        let mut n: Vec<char> = Vec::new();
        push_usize(&mut n, i);
        assert(n@ =~= dec(i as int));
        let number = string_of(n.as_slice());
        let pair = (all[i].clone(), join_path(dest, number.as_str()));
        let ghost done = roots@;
        roots.push(pair);
        proof {
            assert(pairs_view(roots@) =~= pairs_view(done).push(pair_view(pair)));
            assert(copies(av.take(i + 1), dest@) =~= copies(av.take(i as int), dest@).push(
                (av[i as int], joined_path(dest@, dec(i as int))),
            ));
        }
        i = i + 1;
    }
    assert(av.take(i as int) =~= av);
    Snapshot { dir: owned(dest), roots }
}

/// What is left of a path below a root, as a relative path.
pub open spec fn relative(path: Seq<char>, root: Seq<char>) -> Seq<char> {
    join(components(path).skip(components(root).len() as int), "/"@)
}

/// The copy of a live path: that of the first root which it is or lies under.
pub open spec fn copy_of_live(roots: Seq<(Seq<char>, Seq<char>)>, live: Seq<char>) -> Option<Seq<char>>
    decreases roots.len(),
{
    if roots.len() == 0 {
        None
    } else if same_path(live, roots[0].0) {
        Some(roots[0].1)
    } else if is_under(live, roots[0].0) {
        Some(joined_path(roots[0].1, relative(live, roots[0].0)))
    } else {
        copy_of_live(roots.drop_first(), live)
    }
}

/// The copy of a live path, whose length before the run it has.
pub fn snapshot_path(snap: &Snapshot, live: &str) -> (r: Option<String>)
    ensures
        opt_view(r) == copy_of_live(pairs_view(snap.roots@), live@),
{
    let ghost rv = pairs_view(snap.roots@);
    let mut i: usize = 0;
    assert(rv.skip(0) =~= rv);
    while i < snap.roots.len()
        invariant
            i <= snap.roots@.len(),
            rv == pairs_view(snap.roots@),
            copy_of_live(rv.skip(i as int), live@) == copy_of_live(rv, live@),
        decreases snap.roots@.len() - i,
    {
        let root: &str = snap.roots[i].0.as_str();
        let copy: &str = snap.roots[i].1.as_str();
        assert(rv.skip(i as int)[0] == (root@, copy@));
        assert(rv.skip(i as int).drop_first() =~= rv.skip(i + 1));
        if paths_equal(live, root) {
            return Some(owned(copy));
        }
        if path_under(live, root) {
            let lc = crate::path::path_components(live);
            let rc = crate::path::path_components(root);
            let ghost lv = texts(lc@);
            let mut rest: Vec<String> = Vec::new();
            let n: usize = rc.len();
            let mut j: usize = n;
            assert(texts(rc@).len() == n);
            assert(lv.len() == lc@.len());
            assert(n <= lc@.len());
            assert(texts(rest@) =~= lv.subrange(n as int, n as int));
            while j < lc.len()
                invariant
                    n <= j <= lc@.len(),
                    lv == texts(lc@),
                    texts(rest@) == lv.subrange(n as int, j as int),
                decreases lc@.len() - j,
            {
                let c = lc[j].clone();
                proof {
                    lemma_texts_push(rest@, c);
                    assert(lv.subrange(n as int, j + 1) =~= lv.subrange(n as int, j as int).push(lv[j as int]));
                }
                rest.push(c);
                j = j + 1;
            }
            assert(lv.subrange(n as int, j as int) =~= lv.skip(n as int));
            let rel = joined_texts(rest.as_slice(), "/");
            let rel_text = string_of(rel.as_slice());
            return Some(join_path(copy, rel_text.as_str()));
        }
        i = i + 1;
    }
    None
}

} // verus!
