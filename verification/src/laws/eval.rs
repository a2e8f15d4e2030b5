//! Laws of the evaluation: which lines are questions, when one passes, and how
//! the results add up.

use vstd::prelude::*;

use crate::eval::{
    content_lines, first_ask_refusal, first_refusal, meets, passes, question_refusal, sums, AskQuestion, Question,
    QuestionResult,
};
use crate::numeral::dec;
use crate::text::{starts_with, trim};

verus! {

/// A question set has a question on every line that is neither blank nor a
/// comment, with the number of that line, and on no other.
pub proof fn law_every_line_with_content_counts(ls: Seq<Seq<char>>, comment: Seq<char>, n: int, t: Seq<char>)
    ensures
        content_lines(ls, comment).contains((n, t)) <==> 1 <= n <= ls.len() && t == trim(ls[n - 1]) && t.len() > 0
            && !starts_with(t, comment),
        forall|i: int, j: int|
            0 <= i < j < content_lines(ls, comment).len() ==> (#[trigger] content_lines(ls, comment)[i]).0 < (
            #[trigger] content_lines(ls, comment)[j]).0,
        forall|i: int|
            0 <= i < content_lines(ls, comment).len() ==> (#[trigger] content_lines(ls, comment)[i]).0 <= ls.len(),
    decreases ls.len(),
{
    let all = content_lines(ls, comment);
    if ls.len() > 0 {
        let d = ls.drop_last();
        let rest = content_lines(d, comment);
        law_every_line_with_content_counts(d, comment, n, t);
        assert forall|i: int| 0 <= i < rest.len() implies #[trigger] all[i] == rest[i] by {}
        if rest.contains((n, t)) {
            let k = choose|k: int| 0 <= k < rest.len() && rest[k] == (n, t);
            assert(all[k] == (n, t));
        }
        if all.contains((n, t)) && !rest.contains((n, t)) {
            let k = choose|k: int| 0 <= k < all.len() && all[k] == (n, t);
            if k < rest.len() {
                assert(rest[k] == (n, t));
            }
            assert(all[k] == all.last());
        }
        if n == ls.len() && t == trim(ls[n - 1]) && t.len() > 0 && !starts_with(t, comment) {
            assert(all.last() == (n, t));
            assert(all.contains(all.last()));
        }
        if 1 <= n < ls.len() {
            assert(d[n - 1] == ls[n - 1]);
        }
        assert forall|i: int, j: int| 0 <= i < j < all.len() implies (#[trigger] all[i]).0 < (#[trigger] all[j]).0 by {
            assert(all[i] == rest[i]);
            if j < rest.len() {
                assert(all[j] == rest[j]);
            }
        }
        assert forall|i: int| 0 <= i < all.len() implies (#[trigger] all[i]).0 <= ls.len() by {
            if i < rest.len() {
                assert(all[i] == rest[i]);
            }
        }
    }
}

/// A question set is taken where every line of it is a question with a query;
/// else the first line that is not is named.
pub proof fn law_first_bad_question_is_named(ps: Seq<(usize, Result<Question, String>)>, i: int)
    ensures
        first_refusal(ps) is None <==> forall|k: int|
            0 <= k < ps.len() ==> (#[trigger] ps[k]).1 is Ok && trim((ps[k].1->Ok_0).query@).len() > 0,
        0 <= i < ps.len() && !(ps[i].1 is Ok && trim((ps[i].1->Ok_0).query@).len() > 0) && (forall|k: int|
            0 <= k < i ==> (#[trigger] ps[k]).1 is Ok && trim((ps[k].1->Ok_0).query@).len() > 0) ==> first_refusal(ps) == Some(
            "questions line "@ + dec(ps[i].0 as int) + (if ps[i].1 is Err {
                ": "@ + (ps[i].1->Err_0)@
            } else {
                ": empty query"@
            }),
        ),
    decreases ps.len(),
{
    if ps.len() > 0 {
        let d = ps.drop_first();
        law_first_bad_question_is_named(d, i - 1);
        let good = ps[0].1 is Ok && trim((ps[0].1->Ok_0).query@).len() > 0;
        assert(question_refusal(ps[0]) is None <==> good);
        if !good {
            let h = "questions line "@ + dec(ps[0].0 as int);
            if ps[0].1 is Err {
                assert(h + (": "@ + (ps[0].1->Err_0)@) =~= h + ": "@ + (ps[0].1->Err_0)@);
            }
        }
        if first_refusal(ps) is None {
            assert forall|k: int| 0 <= k < ps.len() implies (#[trigger] ps[k]).1 is Ok && trim((ps[k].1->Ok_0).query@).len() > 0 by {
                if k > 0 {
                    assert(d[k - 1] == ps[k]);
                }
            }
        }
        if forall|k: int| 0 <= k < ps.len() ==> (#[trigger] ps[k]).1 is Ok && trim((ps[k].1->Ok_0).query@).len() > 0 {
            assert(ps[0].1 is Ok);
            assert forall|k: int| 0 <= k < d.len() implies (#[trigger] d[k]).1 is Ok && trim((d[k].1->Ok_0).query@).len() > 0 by {
                assert(d[k] == ps[k + 1]);
            }
        }
        if 0 < i < ps.len() && !(ps[i].1 is Ok && trim((ps[i].1->Ok_0).query@).len() > 0) && (forall|k: int|
            0 <= k < i ==> (#[trigger] ps[k]).1 is Ok && trim((ps[k].1->Ok_0).query@).len() > 0) {
            assert(ps[0].1 is Ok);
            assert(d[i - 1] == ps[i]);
            assert forall|k: int| 0 <= k < i - 1 implies (#[trigger] d[k]).1 is Ok && trim((d[k].1->Ok_0).query@).len() > 0 by {
                assert(d[k] == ps[k + 1]);
            }
        }
    }
}

/// A set of questions to answer is taken where every line of it is one; else
/// the first line that is not is named.
pub proof fn law_first_bad_ask_question_is_named(ps: Seq<(usize, Result<AskQuestion, String>)>, i: int)
    ensures
        first_ask_refusal(ps) is None <==> forall|k: int| 0 <= k < ps.len() ==> (#[trigger] ps[k]).1 is Ok,
        0 <= i < ps.len() && ps[i].1 is Err && (forall|k: int| 0 <= k < i ==> (#[trigger] ps[k]).1 is Ok) ==> first_ask_refusal(ps)
            == Some("ask question set line "@ + dec(ps[i].0 as int) + ": "@ + (ps[i].1->Err_0)@),
    decreases ps.len(),
{
    if ps.len() > 0 {
        let d = ps.drop_first();
        law_first_bad_ask_question_is_named(d, i - 1);
        if first_ask_refusal(ps) is None {
            assert forall|k: int| 0 <= k < ps.len() implies (#[trigger] ps[k]).1 is Ok by {
                if k > 0 {
                    assert(d[k - 1] == ps[k]);
                }
            }
        }
        if forall|k: int| 0 <= k < ps.len() ==> (#[trigger] ps[k]).1 is Ok {
            assert(ps[0].1 is Ok);
            assert forall|k: int| 0 <= k < d.len() implies (#[trigger] d[k]).1 is Ok by {
                assert(d[k] == ps[k + 1]);
            }
        }
        if 0 < i < ps.len() && ps[i].1 is Err && (forall|k: int| 0 <= k < i ==> (#[trigger] ps[k]).1 is Ok) {
            assert(ps[0].1 is Ok);
            assert(d[i - 1] == ps[i]);
            assert forall|k: int| 0 <= k < i - 1 implies (#[trigger] d[k]).1 is Ok by {
                assert(d[k] == ps[k + 1]);
            }
        }
    }
}

/// A question passes where one of its expected memories was served and none of
/// the forbidden; one that expects none, where nothing was served.
pub proof fn law_when_a_question_passes(q: Question, injected: Seq<i64>)
    ensures
        q.expect@.len() == 0 ==> (passes(q, injected) <==> injected.len() == 0),
        q.expect@.len() > 0 ==> (passes(q, injected) <==> (exists|n: i64|
            q.expect@.contains(n) && #[trigger] injected.contains(n)) && !(exists|n: i64|
            q.forbid@.contains(n) && #[trigger] injected.contains(n))),
{
    lemma_meets(q.expect@, injected);
    lemma_meets(q.forbid@, injected);
}

proof fn lemma_meets(a: Seq<i64>, b: Seq<i64>)
    ensures
        meets(a, b) <==> exists|n: i64| a.contains(n) && #[trigger] b.contains(n),
{
    if meets(a, b) {
        let i = choose|i: int| 0 <= i < a.len() && b.contains(#[trigger] a[i]);
        assert(a.contains(a[i]) && b.contains(a[i]));
    }
    if exists|n: i64| a.contains(n) && #[trigger] b.contains(n) {
        let n = choose|n: i64| a.contains(n) && #[trigger] b.contains(n);
        let i = choose|i: int| 0 <= i < a.len() && a[i] == n;
        assert(b.contains(a[i]));
    }
}

/// The results of two runs add up, and a single result counts once, in its own
/// category and in the whole.
pub proof fn law_results_add_up(a: Seq<QuestionResult>, b: Seq<QuestionResult>, c: Option<Seq<char>>)
    ensures
        sums(a + b, c).0 == sums(a, c).0 + sums(b, c).0,
        sums(a + b, c).1 == sums(a, c).1 + sums(b, c).1,
        sums(a + b, c).2 == sums(a, c).2 + sums(b, c).2,
        sums(a + b, c).3 == sums(a, c).3 + sums(b, c).3,
    decreases b.len(),
{
    if b.len() > 0 {
        law_results_add_up(a, b.drop_last(), c);
        assert((a + b).drop_last() =~= a + b.drop_last());
    } else {
        assert(a + b =~= a);
    }
}

/// A single result counts once in its own category and in the whole, and not
/// in another category.
pub proof fn law_one_result_counts_once(r: QuestionResult, c: Seq<char>)
    ensures
        ({
            let own = (
                1int,
                if r.passed {
                    1int
                } else {
                    0
                },
                if r.served_stale {
                    1int
                } else {
                    0
                },
                r.chars as int,
            );
            &&& sums(seq![r], None) == own
            &&& sums(seq![r], Some(r.category@)) == own
            &&& c != r.category@ ==> sums(seq![r], Some(c)) == (0int, 0int, 0int, 0int)
        }),
{
    let s = seq![r];
    assert(s.drop_last() =~= Seq::empty());
    assert(sums(s.drop_last(), None) == (0int, 0int, 0int, 0int));
    assert(sums(s.drop_last(), Some(r.category@)) == (0int, 0int, 0int, 0int));
    assert(sums(s.drop_last(), Some(c)) == (0int, 0int, 0int, 0int));
    assert(s.last() == r);
}

} // verus!
