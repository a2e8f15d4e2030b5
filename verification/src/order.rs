//! The order of texts by their characters, and sorting by it.

use vstd::prelude::*;
use vstd::relations::{sorted_by, total_ordering};
use vstd::seq_lib::lemma_sorted_unique;

use crate::text::{chars_of, listed, same_text, texts};

verus! {

/// `a` comes before `b`: at the first place where they differ it has the
/// smaller character, or it ends there.
pub open spec fn before(a: Seq<char>, b: Seq<char>) -> bool
    decreases a.len(),
{
    if b.len() == 0 {
        false
    } else if a.len() == 0 {
        true
    } else if a[0] != b[0] {
        a[0] < b[0]
    } else {
        before(a.drop_first(), b.drop_first())
    }
}

/// `a` comes before `b` or is `b`.
pub open spec fn not_after(a: Seq<char>, b: Seq<char>) -> bool {
    a == b || before(a, b)
}

/// The texts of `s` in order.
pub open spec fn sorted(s: Seq<Seq<char>>) -> Seq<Seq<char>> {
    s.sort_by(|a: Seq<char>, b: Seq<char>| not_after(a, b))
}

pub proof fn lemma_before_irreflexive(a: Seq<char>)
    ensures
        !before(a, a),
    decreases a.len(),
{
    if a.len() > 0 {
        lemma_before_irreflexive(a.drop_first());
    }
}

pub proof fn lemma_before_total(a: Seq<char>, b: Seq<char>)
    ensures
        a == b || before(a, b) || before(b, a),
    decreases a.len(),
{
    if a.len() == 0 || b.len() == 0 {
        assert(a.len() == 0 && b.len() == 0 ==> a =~= b);
    } else if a[0] == b[0] {
        lemma_before_total(a.drop_first(), b.drop_first());
        if a.drop_first() == b.drop_first() {
            assert(a =~= seq![a[0]] + a.drop_first());
            assert(b =~= seq![b[0]] + b.drop_first());
        }
    }
}

pub proof fn lemma_before_transitive(a: Seq<char>, b: Seq<char>, c: Seq<char>)
    requires
        before(a, b),
        before(b, c),
    ensures
        before(a, c),
    decreases a.len(),
{
    if a.len() > 0 && a[0] == b[0] && b[0] == c[0] {
        lemma_before_transitive(a.drop_first(), b.drop_first(), c.drop_first());
    }
}

pub proof fn lemma_before_asymmetric(a: Seq<char>, b: Seq<char>)
    requires
        before(a, b),
    ensures
        !before(b, a),
        a != b,
{
    if before(b, a) {
        lemma_before_transitive(a, b, a);
    }
    lemma_before_irreflexive(a);
}

pub proof fn lemma_not_after_is_total_ordering()
    ensures
        total_ordering(|a: Seq<char>, b: Seq<char>| not_after(a, b)),
{
    let leq = |a: Seq<char>, b: Seq<char>| not_after(a, b);
    assert forall|x: Seq<char>, y: Seq<char>| #[trigger] leq(x, y) && #[trigger] leq(y, x) implies x == y by {
        if x != y {
            lemma_before_asymmetric(x, y);
        }
    }
    assert forall|x: Seq<char>, y: Seq<char>, z: Seq<char>| #[trigger]
        leq(x, y) && #[trigger] leq(y, z) implies leq(x, z) by {
        if x != y && y != z {
            lemma_before_transitive(x, y, z);
        }
    }
    assert forall|x: Seq<char>, y: Seq<char>| #[trigger] leq(x, y) || #[trigger] leq(y, x) by {
        lemma_before_total(x, y);
    }
}

/// Texts in order that are those of `s` are `sorted(s)`.
pub proof fn lemma_sorted_is(s: Seq<Seq<char>>, r: Seq<Seq<char>>)
    requires
        r.to_multiset() == s.to_multiset(),
        sorted_by(r, |a: Seq<char>, b: Seq<char>| not_after(a, b)),
    ensures
        r == sorted(s),
{
    let leq = |a: Seq<char>, b: Seq<char>| not_after(a, b);
    lemma_not_after_is_total_ordering();
    s.lemma_sort_by_ensures(leq);
    lemma_sorted_unique(r, sorted(s), leq);
}

/// The order in which texts are given does not matter to their sorted order.
pub proof fn lemma_sorted_ignores_order(s: Seq<Seq<char>>, t: Seq<Seq<char>>)
    requires
        s.to_multiset() == t.to_multiset(),
    ensures
        sorted(s) == sorted(t),
{
    let leq = |a: Seq<char>, b: Seq<char>| not_after(a, b);
    lemma_not_after_is_total_ordering();
    t.lemma_sort_by_ensures(leq);
    lemma_sorted_is(s, sorted(t));
}

/// Whether `a` comes before `b`.
pub fn comes_before(a: &[char], b: &[char]) -> (r: bool)
    ensures
        r == before(a@, b@),
{
    let mut i: usize = 0;
    assert(a@.skip(0) =~= a@);
    assert(b@.skip(0) =~= b@);
    while i < a.len() && i < b.len()
        invariant
            i <= a.len(),
            i <= b.len(),
            before(a@, b@) == before(a@.skip(i as int), b@.skip(i as int)),
        decreases a.len() - i,
    {
        if a[i] != b[i] {
            return a[i] < b[i];
        }
        assert(a@.skip(i as int).drop_first() =~= a@.skip(i + 1));
        assert(b@.skip(i as int).drop_first() =~= b@.skip(i + 1));
        i = i + 1;
    }
    i < b.len()
}

/// Whether `a` comes before `b`.
pub fn text_before(a: &str, b: &str) -> (r: bool)
    ensures
        r == before(a@, b@),
{
    let ac = chars_of(a);
    let bc = chars_of(b);
    comes_before(ac.as_slice(), bc.as_slice())
}

/// The texts of `v` in order.
pub fn sort_texts(v: &Vec<String>) -> (r: Vec<String>)
    ensures
        texts(r@) == sorted(texts(v@)),
{
    let mut out: Vec<String> = Vec::new();
    let ghost leq = |a: Seq<char>, b: Seq<char>| not_after(a, b);
    let ghost all = texts(v@);
    let mut i: usize = 0;
    assert(texts(out@) =~= all.take(0));
    while i < v.len()
        invariant
            i <= v.len(),
            all == texts(v@),
            leq == (|a: Seq<char>, b: Seq<char>| not_after(a, b)),
            sorted_by(texts(out@), leq),
            texts(out@).to_multiset() == all.take(i as int).to_multiset(),
        decreases v.len() - i,
    {
        let mut k: usize = 0;
        let ghost done = texts(out@);
        let ghost x = v@[i as int]@;
        while k < out.len() && !text_before(v[i].as_str(), out[k].as_str())
            invariant
                i < v.len(),
                k <= out.len(),
                done == texts(out@),
                x == v@[i as int]@,
                forall|j: int| 0 <= j < k ==> !before(x, #[trigger] done[j]),
            decreases out.len() - k,
        {
            k = k + 1;
        }
        out.insert(k, v[i].clone());
        proof {
            let now = texts(out@);
            assert(now =~= done.insert(k as int, x));
            broadcast use vstd::seq_lib::group_to_multiset_ensures;
            assert(all.take(i + 1) =~= all.take(i as int).push(x));
            assert forall|p: int, q: int| 0 <= p < q < now.len() implies #[trigger] leq(now[p], now[q]) by {
                if p == k {
                    let y = done[q - 1];
                    if k < q - 1 {
                        assert(leq(done[k as int], y));
                        assert(before(x, done[k as int]));
                        if done[k as int] != y {
                            lemma_before_transitive(x, done[k as int], y);
                        }
                    }
                } else if q == k {
                    lemma_before_total(x, done[p]);
                } else {
                    let p0 = if p < k { p } else { p - 1 };
                    let q0 = if q < k { q } else { q - 1 };
                    assert(leq(done[p0], done[q0]));
                }
            }
        }
        i = i + 1;
    }
    proof {
        assert(all.take(i as int) =~= all);
        lemma_sorted_is(all, texts(out@));
    }
    out
}

// --- sets of texts, in order ---

/// The keys ascend strictly.
pub open spec fn ascending(s: Seq<Seq<char>>) -> bool {
    forall|i: int, j: int| 0 <= i < j < s.len() ==> before(#[trigger] s[i], #[trigger] s[j])
}

/// `s` with `x` at its place in the order, or `s` where it is there already.
pub open spec fn with_text(s: Seq<Seq<char>>, x: Seq<char>) -> Seq<Seq<char>>
    decreases s.len(),
{
    if s.len() == 0 {
        seq![x]
    } else if x == s[0] {
        s
    } else if before(x, s[0]) {
        seq![x] + s
    } else {
        seq![s[0]] + with_text(s.drop_first(), x)
    }
}

/// The texts of `s` in ascending order, each once.
pub open spec fn sorted_set(s: Seq<Seq<char>>) -> Seq<Seq<char>>
    decreases s.len(),
{
    if s.len() == 0 {
        Seq::empty()
    } else {
        with_text(sorted_set(s.drop_last()), s.last())
    }
}

/// Adding a text keeps the order and adds that text alone.
pub proof fn lemma_with_text(s: Seq<Seq<char>>, x: Seq<char>)
    ensures
        ascending(s) ==> ascending(with_text(s, x)),
        forall|t: Seq<char>| #[trigger] listed(with_text(s, x), t) <==> listed(s, t) || t == x,
    decreases s.len(),
{
    let r = with_text(s, x);
    if s.len() == 0 {
        assert(r[0] == x);
    } else if x == s[0] {
    } else if before(x, s[0]) {
        assert forall|t: Seq<char>| #[trigger] listed(r, t) <==> listed(s, t) || t == x by {
            if listed(s, t) {
                let i = choose|i: int| 0 <= i < s.len() && #[trigger] s[i] == t;
                assert(r[i + 1] == t);
            }
            if listed(r, t) {
                let i = choose|i: int| 0 <= i < r.len() && #[trigger] r[i] == t;
                assert(i > 0 ==> s[i - 1] == t);
            }
            assert(r[0] == x);
        }
        if ascending(s) {
            assert forall|i: int, j: int| 0 <= i < j < r.len() implies before(#[trigger] r[i], #[trigger] r[j]) by {
                if i == 0 {
                    if j > 1 {
                        assert(before(s[0], s[j - 1]));
                        lemma_before_transitive(x, s[0], s[j - 1]);
                    }
                } else {
                    assert(before(s[i - 1], s[j - 1]));
                }
            }
        }
    } else {
        let t0 = s.drop_first();
        lemma_with_text(t0, x);
        lemma_before_total(x, s[0]);
        let q = with_text(t0, x);
        assert forall|t: Seq<char>| #[trigger] listed(r, t) <==> listed(s, t) || t == x by {
            if listed(s, t) {
                let i = choose|i: int| 0 <= i < s.len() && #[trigger] s[i] == t;
                if i == 0 {
                    assert(r[0] == t);
                } else {
                    assert(t0[i - 1] == t);
                    assert(listed(q, t));
                    let k = choose|k: int| 0 <= k < q.len() && #[trigger] q[k] == t;
                    assert(r[k + 1] == t);
                }
            }
            if t == x {
                assert(listed(q, x));
                let k = choose|k: int| 0 <= k < q.len() && #[trigger] q[k] == x;
                assert(r[k + 1] == x);
            }
            if listed(r, t) {
                let i = choose|i: int| 0 <= i < r.len() && #[trigger] r[i] == t;
                if i == 0 {
                    assert(s[0] == t);
                } else {
                    assert(q[i - 1] == t);
                    assert(listed(q, t));
                    if t != x {
                        let k = choose|k: int| 0 <= k < t0.len() && #[trigger] t0[k] == t;
                        assert(s[k + 1] == t);
                    }
                }
            }
        }
        if ascending(s) {
            assert(ascending(t0)) by {
                assert forall|i: int, j: int| 0 <= i < j < t0.len() implies before(
                    #[trigger] t0[i],
                    #[trigger] t0[j],
                ) by {
                    assert(before(s[i + 1], s[j + 1]));
                }
            }
            assert forall|i: int, j: int| 0 <= i < j < r.len() implies before(#[trigger] r[i], #[trigger] r[j]) by {
                if i == 0 {
                    let y = q[j - 1];
                    assert(listed(q, y));
                    if y != x {
                        let k = choose|k: int| 0 <= k < t0.len() && #[trigger] t0[k] == y;
                        assert(before(s[0], s[k + 1]));
                    }
                } else {
                    assert(before(q[i - 1], q[j - 1]));
                }
            }
        }
    }
}

/// The sorted set of texts ascends strictly and holds those texts alone.
pub proof fn lemma_sorted_set(s: Seq<Seq<char>>)
    ensures
        ascending(sorted_set(s)),
        forall|t: Seq<char>| #[trigger] listed(sorted_set(s), t) <==> listed(s, t),
    decreases s.len(),
{
    if s.len() > 0 {
        let d = s.drop_last();
        lemma_sorted_set(d);
        lemma_with_text(sorted_set(d), s.last());
        assert forall|t: Seq<char>| #[trigger] listed(s, t) <==> listed(d, t) || t == s.last() by {
            if listed(s, t) {
                let i = choose|i: int| 0 <= i < s.len() && #[trigger] s[i] == t;
                assert(i < d.len() ==> d[i] == t);
            }
            if listed(d, t) {
                let i = choose|i: int| 0 <= i < d.len() && #[trigger] d[i] == t;
                assert(s[i] == t);
            }
            assert(s[s.len() - 1] == s.last());
        }
    }
}

/// Where `x` belongs: behind the first `k` texts, which come before it.
proof fn lemma_with_text_at(s: Seq<Seq<char>>, x: Seq<char>, k: int)
    requires
        0 <= k <= s.len(),
        forall|j: int| 0 <= j < k ==> #[trigger] s[j] != x && !before(x, s[j]),
        k < s.len() ==> s[k] == x || before(x, s[k]),
    ensures
        with_text(s, x) == if k < s.len() && s[k] == x {
            s
        } else {
            s.insert(k, x)
        },
    decreases k,
{
    if k == 0 {
        if s.len() == 0 {
            assert(s.insert(0, x) =~= seq![x]);
        } else if s[0] != x {
            assert(s.insert(0, x) =~= seq![x] + s);
        }
    } else {
        let t = s.drop_first();
        assert forall|j: int| 0 <= j < k - 1 implies #[trigger] t[j] != x && !before(x, t[j]) by {
            assert(t[j] == s[j + 1]);
        }
        lemma_with_text_at(t, x, k - 1);
        if k < s.len() && s[k] == x {
            assert(seq![s[0]] + t =~= s);
        } else {
            assert(seq![s[0]] + t.insert(k - 1, x) =~= s.insert(k, x));
        }
        assert(s[0] != x && !before(x, s[0]));
    }
}

/// Adds a text at its place in the order, unless it is there already.
pub fn add_text(v: &mut Vec<String>, x: &str)
    ensures
        texts(final(v)@) == with_text(texts(old(v)@), x@),
{
    let ghost s = texts(v@);
    let mut k: usize = 0;
    while k < v.len() && !same_text(v[k].as_str(), x) && !text_before(x, v[k].as_str())
        invariant
            k <= v@.len(),
            s == texts(v@),
            v@ == old(v)@,
            forall|j: int| 0 <= j < k ==> #[trigger] s[j] != x@ && !before(x@, s[j]),
        decreases v@.len() - k,
    {
        k = k + 1;
    }
    proof {
        lemma_with_text_at(s, x@, k as int);
    }
    if k < v.len() && same_text(v[k].as_str(), x) {
        return;
    }
    let item = crate::text::owned(x);
    v.insert(k, item);
    assert(texts(v@) =~= s.insert(k as int, x@));
}

} // verus!
