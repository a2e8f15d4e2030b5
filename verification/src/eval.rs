//! Retrieval evaluation: fixed questions, scored by which memories recall
//! served, and by whether an answer carries the material.

use vstd::prelude::*;

use crate::error::KbError;
use crate::letters::{lowercase_of, to_lower};
use crate::numeral::{dec, push_usize};
use crate::text::{
    chars_of, contains, has_prefix, holds, lines, lines_of, owned, push_text, starts_with, string_of, texts, trim, trimmed,
    views,
};
use crate::textmap::TextMap;

verus! {

/// Where the questions are found, below the home directory.
pub const DEFAULT_QUESTIONS_PATH: &'static str = ".local/share/mach/eval/questions.jsonl";

/// Where the ask questions are found, below the home directory.
pub const DEFAULT_ASK_QUESTIONS_PATH: &'static str = ".local/share/mach/eval/ask-questions.jsonl";

/// A question, the memories that answer it, and those that must not be served.
#[derive(Debug, Clone)]
pub struct Question {
    pub id: String,
    pub category: String,
    pub query: String,
    pub expect: Vec<i64>,
    pub forbid: Vec<i64>,
    pub project: Option<String>,
}

impl Question {
    /// Whether the bank should have nothing to say.
    pub open spec fn expects_nothing(self) -> bool {
        self.expect@.len() == 0
    }

    /// Whether the bank should have nothing to say.
    pub fn is_abstention(&self) -> (r: bool)
        ensures
            r == self.expects_nothing(),
    {
        self.expect.len() == 0
    }
}

// --- reading the questions ---

/// The lines that hold something, trimmed and with their numbers: not blank,
/// and not beginning with the mark of a comment.
pub open spec fn content_lines(ls: Seq<Seq<char>>, comment: Seq<char>) -> Seq<(int, Seq<char>)>
    decreases ls.len(),
{
    if ls.len() == 0 {
        Seq::empty()
    } else {
        let rest = content_lines(ls.drop_last(), comment);
        let t = trim(ls.last());
        if t.len() == 0 || starts_with(t, comment) {
            rest
        } else {
            rest.push((ls.len() as int, t))
        }
    }
}

pub open spec fn numbered_view(v: Seq<(usize, String)>) -> Seq<(int, Seq<char>)> {
    Seq::new(v.len(), |i: int| (v[i].0 as int, v[i].1@))
}

fn lines_with_content(content: &str, comment: &str) -> (r: Vec<(usize, String)>)
    ensures
        numbered_view(r@) == content_lines(lines(content@), comment@),
{
    let cc = chars_of(content);
    let ls = lines_of(cc.as_slice());
    let ghost lv = views(ls@);
    let mut out: Vec<(usize, String)> = Vec::new();
    let mut i: usize = 0;
    assert(numbered_view(out@) =~= content_lines(lv.take(0), comment@));
    while i < ls.len()
        invariant
            i <= ls@.len(),
            lv == views(ls@),
            numbered_view(out@) == content_lines(lv.take(i as int), comment@),
        decreases ls@.len() - i,
    {
        assert(lv.take(i + 1).drop_last() =~= lv.take(i as int));
        assert(lv.take(i + 1).last() == ls@[i as int]@);
        let t = trimmed(ls[i]);
        if t.len() > 0 && !has_prefix(t, comment) {
            let item = (i + 1, string_of(t));
            let ghost done = out@;
            out.push(item);
            assert(numbered_view(out@) =~= numbered_view(done).push((item.0 as int, item.1@)));
        }
        i = i + 1;
    }
    assert(lv.take(i as int) =~= lv);
    out
}

/// The lines of a question file that hold a question, with their numbers.
pub fn question_lines(content: &str) -> (r: Vec<(usize, String)>)
    ensures
        numbered_view(r@) == content_lines(lines(content@), "#"@),
{
    lines_with_content(content, "#")
}

/// The lines of an ask-question file that hold a question, with their numbers.
pub fn ask_question_lines(content: &str) -> (r: Vec<(usize, String)>)
    ensures
        numbered_view(r@) == content_lines(lines(content@), "//"@),
{
    lines_with_content(content, "//")
}

/// Why a line's question is refused, if it is: it could not be parsed, or asks
/// nothing.
pub open spec fn question_refusal(line: (usize, Result<Question, String>)) -> Option<Seq<char>> {
    match line.1 {
        Err(e) => Some("questions line "@ + dec(line.0 as int) + ": "@ + e@),
        Ok(q) => if trim(q.query@).len() == 0 {
            Some("questions line "@ + dec(line.0 as int) + ": empty query"@)
        } else {
            None
        },
    }
}

/// The first refusal among the lines.
pub open spec fn first_refusal(parses: Seq<(usize, Result<Question, String>)>) -> Option<Seq<char>>
    decreases parses.len(),
{
    if parses.len() == 0 {
        None
    } else if question_refusal(parses[0]) is Some {
        question_refusal(parses[0])
    } else {
        first_refusal(parses.drop_first())
    }
}

/// Collects the questions of a file from what each of its lines was parsed to.
/// The first line that is refused refuses the file, and so does a file without
/// a question: either would shrink what the score is out of.
pub fn parse_questions(parses: Vec<(usize, Result<Question, String>)>) -> (r: Result<Vec<Question>, KbError>)
    ensures
        r is Err ==> r->Err_0 is Other,
        r is Ok <==> first_refusal(parses@) is None && parses@.len() > 0,
        r is Ok ==> r->Ok_0@.len() == parses@.len() && forall|i: int|
            0 <= i < parses@.len() ==> Ok::<Question, String>(#[trigger] r->Ok_0@[i]) == parses@[i].1,
        first_refusal(parses@) is Some ==> r is Err && r->Err_0@ == first_refusal(parses@)->0,
        parses@.len() == 0 ==> r is Err && r->Err_0@ == "no questions found"@,
{
    let ghost all = parses@;
    let mut rest = parses;
    let mut out: Vec<Question> = Vec::new();
    assert(all.skip(0) =~= all);
    while rest.len() > 0
        invariant
            all == parses@,
            out@.len() <= all.len(),
            rest@ == all.skip(out@.len() as int),
            first_refusal(rest@) == first_refusal(all),
            forall|i: int| 0 <= i < out@.len() ==> Ok::<Question, String>(#[trigger] out@[i]) == all[i].1,
        decreases rest@.len(),
    {
        let ghost before = rest@;
        let (number, parse) = rest.remove(0);
        assert(rest@ =~= before.drop_first());
        assert(before.drop_first() =~= all.skip(out@.len() as int + 1));
        let mut m = chars_of("questions line ");
        push_usize(&mut m, number);
        match parse {
            Err(e) => {
                push_text(&mut m, ": ");
                push_text(&mut m, e.as_str());
                return Err(KbError::Other(string_of(m.as_slice())));
            },
            Ok(q) => {
                let qc = chars_of(q.query.as_str());
                if trimmed(qc.as_slice()).len() == 0 {
                    push_text(&mut m, ": empty query");
                    return Err(KbError::Other(string_of(m.as_slice())));
                }
                out.push(q);
            },
        }
    }
    if out.len() == 0 {
        return Err(KbError::Other(owned("no questions found")));
    }
    Ok(out)
}

// --- scoring ---

/// What one question scored.
#[derive(Debug, Clone, PartialEq)]
pub struct QuestionResult {
    pub id: String,
    pub category: String,
    pub query: String,
    pub passed: bool,
    pub served_stale: bool,
    pub injected: Vec<i64>,
    pub chars: usize,
}

/// Whether two lists have a number in common.
pub open spec fn meets(a: Seq<i64>, b: Seq<i64>) -> bool {
    exists|i: int| 0 <= i < a.len() && b.contains(#[trigger] a[i])
}

fn lists_meet(a: &[i64], b: &[i64]) -> (r: bool)
    ensures
        r == meets(a@, b@),
{
    let mut i: usize = 0;
    while i < a.len()
        invariant
            i <= a@.len(),
            forall|k: int| 0 <= k < i ==> !b@.contains(#[trigger] a@[k]),
        decreases a@.len() - i,
    {
        let mut j: usize = 0;
        while j < b.len()
            invariant
                i < a@.len(),
                j <= b@.len(),
                forall|k: int| 0 <= k < j ==> b@[k] != a@[i as int],
            decreases b@.len() - j,
        {
            if b[j] == a[i] {
                assert(b@.contains(a@[i as int]));
                return true;
            }
            j = j + 1;
        }
        i = i + 1;
    }
    false
}

/// Whether what was served answers the question: nothing, where the bank should
/// have nothing to say; else any expected memory and none that is forbidden.
pub open spec fn passes(q: Question, injected: Seq<i64>) -> bool {
    if q.expects_nothing() {
        injected.len() == 0
    } else {
        meets(q.expect@, injected) && !meets(q.forbid@, injected)
    }
}

/// Scores a question by the memories that were served, in rank order.
pub fn score(q: &Question, injected: &[i64], chars: usize) -> (r: QuestionResult)
    ensures
        r.id@ == q.id@,
        r.category@ == q.category@,
        r.query@ == q.query@,
        r.passed == passes(*q, injected@),
        r.served_stale == meets(q.forbid@, injected@),
        r.injected@ == injected@,
        r.chars == chars,
{
    let served_stale: bool = lists_meet(q.forbid.as_slice(), injected);
    let passed: bool = if q.is_abstention() {
        injected.len() == 0
    } else {
        lists_meet(q.expect.as_slice(), injected) && !served_stale
    };
    let mut served: Vec<i64> = Vec::new();
    let mut i: usize = 0;
    while i < injected.len()
        invariant
            i <= injected@.len(),
            served@ == injected@.take(i as int),
        decreases injected@.len() - i,
    {
        served.push(injected[i]);
        i = i + 1;
        assert(injected@.take(i as int) =~= injected@.take(i - 1).push(injected@[i - 1]));
    }
    assert(injected@.take(i as int) =~= injected@);
    QuestionResult {
        id: q.id.clone(),
        category: q.category.clone(),
        query: q.query.clone(),
        passed,
        served_stale,
        injected: served,
        chars,
    }
}

/// A question that must not be served some memory fails once it is, whatever
/// else is served.
pub proof fn law_stale_memory_fails_the_question(q: Question, injected: Seq<i64>)
    requires
        meets(q.forbid@, injected),
    ensures
        !passes(q, injected),
{
    let i = choose|i: int| 0 <= i < q.forbid@.len() && injected.contains(#[trigger] q.forbid@[i]);
    assert(injected.len() > 0);
}

// --- tallies ---

/// What a set of questions scored.
#[derive(Debug, Clone, Copy, PartialEq, Eq, Structural)]
pub struct Tally {
    pub total: usize,
    pub passed: usize,
    pub served_stale: usize,
    pub chars: usize,
}

/// Whether the result is of the category, or of any.
pub open spec fn counts_for(r: QuestionResult, category: Option<Seq<char>>) -> bool {
    match category {
        Some(c) => r.category@ == c,
        None => true,
    }
}

/// How many results there are, how many passed, how many served something
/// stale, and how many characters were served, in a category or in all.
pub open spec fn sums(rs: Seq<QuestionResult>, category: Option<Seq<char>>) -> (int, int, int, int)
    decreases rs.len(),
{
    if rs.len() == 0 {
        (0, 0, 0, 0)
    } else {
        let s = sums(rs.drop_last(), category);
        let r = rs.last();
        if counts_for(r, category) {
            (
                s.0 + 1,
                s.1 + (if r.passed {
                    1int
                } else {
                    0
                }),
                s.2 + (if r.served_stale {
                    1int
                } else {
                    0
                }),
                s.3 + r.chars,
            )
        } else {
            s
        }
    }
}

impl Tally {
    /// The tally's numbers.
    pub open spec fn numbers(self) -> (int, int, int, int) {
        (self.total as int, self.passed as int, self.served_stale as int, self.chars as int)
    }

    fn zero() -> (r: Tally)
        ensures
            r.numbers() == (0int, 0int, 0int, 0int),
    {
        Tally { total: 0, passed: 0, served_stale: 0, chars: 0 }
    }

    fn plus(self, r: &QuestionResult) -> (t: Tally)
        requires
            self.total < usize::MAX,
            self.passed <= self.total,
            self.served_stale <= self.total,
            self.chars + r.chars <= usize::MAX,
        ensures
            t.total == self.total + 1,
            t.passed == self.passed + (if r.passed {
                1int
            } else {
                0
            }),
            t.served_stale == self.served_stale + (if r.served_stale {
                1int
            } else {
                0
            }),
            t.chars == self.chars + r.chars,
    {
        Tally {
            total: self.total + 1,
            passed: self.passed + (if r.passed {
                1
            } else {
                0
            }),
            served_stale: self.served_stale + (if r.served_stale {
                1
            } else {
                0
            }),
            chars: self.chars + r.chars,
        }
    }
}

/// The parts of a tally never exceed its total, and a category's numbers never
/// exceed those of all.
pub proof fn law_tallies_fit_together(rs: Seq<QuestionResult>, category: Option<Seq<char>>)
    ensures
        0 <= sums(rs, category).1 <= sums(rs, category).0 <= sums(rs, None).0 == rs.len(),
        0 <= sums(rs, category).2 <= sums(rs, category).0,
        0 <= sums(rs, category).3 <= sums(rs, None).3,
    decreases rs.len(),
{
    if rs.len() > 0 {
        law_tallies_fit_together(rs.drop_last(), category);
        law_tallies_fit_together(rs.drop_last(), None);
    }
}

proof fn lemma_chars_grow(rs: Seq<QuestionResult>, n: int)
    requires
        0 <= n <= rs.len(),
    ensures
        sums(rs.take(n), None).3 <= sums(rs, None).3,
    decreases rs.len() - n,
{
    if n == rs.len() {
        assert(rs.take(n) =~= rs);
    } else {
        lemma_chars_grow(rs, n + 1);
        assert(rs.take(n + 1).drop_last() =~= rs.take(n));
    }
}

/// Whether some result is of the category.
pub open spec fn has_category(rs: Seq<QuestionResult>, c: Seq<char>) -> bool {
    exists|i: int| 0 <= i < rs.len() && (#[trigger] rs[i]).category@ == c
}

/// Tallies the results by category, and all of them.
pub fn summarize(results: &[QuestionResult]) -> (r: (TextMap<Tally>, Tally))
    requires
        sums(results@, None).3 <= usize::MAX,
    ensures
        r.0.wf(),
        forall|c: Seq<char>| #[trigger] r.0@.contains_key(c) <==> has_category(results@, c),
        forall|c: Seq<char>| #[trigger]
            r.0@.contains_key(c) ==> r.0@[c].numbers() == sums(results@, Some(c)),
        r.1.numbers() == sums(results@, None),
{
    let ghost rs = results@;
    let mut by_cat: TextMap<Tally> = TextMap::new();
    let mut overall = Tally::zero();
    let mut i: usize = 0;
    let total: usize = results.len();
    while i < results.len()
        invariant
            i <= results@.len(),
            total == results@.len(),
            rs == results@,
            sums(rs, None).3 <= usize::MAX,
            by_cat.wf(),
            overall.numbers() == sums(rs.take(i as int), None),
            forall|c: Seq<char>| #[trigger] by_cat@.contains_key(c) <==> has_category(rs.take(i as int), c),
            forall|c: Seq<char>| #[trigger]
                by_cat@.contains_key(c) ==> by_cat@[c].numbers() == sums(rs.take(i as int), Some(c)),
        decreases results@.len() - i,
    {
        let r: &QuestionResult = &results[i];
        let ghost cat = r.category@;
        let ghost sofar = rs.take(i as int);
        let ghost next = rs.take(i + 1);
        let ghost before = by_cat@;
        proof {
            assert(next.drop_last() =~= sofar);
            assert(next.last() == *r);
            lemma_chars_grow(rs, i + 1);
            law_tallies_fit_together(sofar, Some(cat));
            law_tallies_fit_together(sofar, None);
        }
        let found: Option<&Tally> = by_cat.get(r.category.as_str());
        let t: Tally = match found {
            Some(t) => *t,
            None => Tally::zero(),
        };
        proof {
            if found is None {
                lemma_no_category(sofar, cat);
            }
            assert(t.numbers() == sums(sofar, Some(cat)));
        }
        by_cat.insert(r.category.clone(), t.plus(r));
        overall = overall.plus(r);
        proof {
            assert forall|c: Seq<char>| #[trigger] by_cat@.contains_key(c) <==> has_category(next, c) by {
                assert(has_category(next, c) <==> has_category(sofar, c) || c == cat) by {
                    if has_category(next, c) {
                        let k = choose|k: int| 0 <= k < next.len() && (#[trigger] next[k]).category@ == c;
                        if k < i {
                            assert(sofar[k].category@ == c);
                        }
                    }
                    if has_category(sofar, c) {
                        let k = choose|k: int| 0 <= k < sofar.len() && (#[trigger] sofar[k]).category@ == c;
                        assert(next[k].category@ == c);
                    }
                    assert(next[i as int].category@ == cat);
                }
                assert(before.contains_key(c) <==> has_category(sofar, c));
            }
            assert forall|c: Seq<char>| #[trigger] by_cat@.contains_key(c) implies by_cat@[c].numbers() == sums(
                next,
                Some(c),
            ) by {
                if c != cat {
                    assert(before.contains_key(c));
                    assert(by_cat@[c] == before[c]);
                }
            }
        }
        i = i + 1;
    }
    assert(rs.take(i as int) =~= rs);
    (by_cat, overall)
}

proof fn lemma_no_category(rs: Seq<QuestionResult>, c: Seq<char>)
    requires
        !has_category(rs, c),
    ensures
        sums(rs, Some(c)) == (0int, 0int, 0int, 0int),
    decreases rs.len(),
{
    if rs.len() > 0 {
        let d = rs.drop_last();
        assert(rs[rs.len() - 1].category@ != c);
        assert(!has_category(d, c)) by {
            if has_category(d, c) {
                let k = choose|k: int| 0 <= k < d.len() && (#[trigger] d[k]).category@ == c;
                assert(rs[k].category@ == c);
            }
        }
        lemma_no_category(d, c);
    }
}

// --- ask evaluation ---

/// A question to be answered, with the literals that show the material was
/// reached.
#[derive(Debug, Clone)]
pub struct AskQuestion {
    pub id: String,
    pub category: String,
    pub query: String,
    pub expect_any: Vec<String>,
    pub unanswerable: bool,
}

/// How one ask question scored: whether the material was gathered, and whether
/// the answer used it.
#[derive(Debug, Clone)]
pub struct AskResult {
    pub id: String,
    pub category: String,
    pub retrieved: bool,
    pub answered: bool,
    pub rounds: usize,
    pub used_transcript: bool,
    pub passed: bool,
}

/// Whether a text holds the lower case of any needle.
pub open spec fn holds_any(text: Seq<char>, needles: Seq<Seq<char>>) -> bool {
    exists|i: int| 0 <= i < needles.len() && contains(text, lowercase_of(#[trigger] needles[i]))
}

/// Whether a text whose letters are already small holds any of the needles,
/// also in small letters.
pub fn contains_any_lowered(text: &str, needles: &[String]) -> (r: bool)
    ensures
        r == exists|i: int| 0 <= i < needles@.len() && contains(text@, #[trigger] needles@[i]@),
{
    let tc = chars_of(text);
    let mut i: usize = 0;
    while i < needles.len()
        invariant
            i <= needles@.len(),
            tc@ == text@,
            forall|j: int| 0 <= j < i ==> !contains(text@, #[trigger] needles@[j]@),
        decreases needles@.len() - i,
    {
        let nc = chars_of(needles[i].as_str());
        if holds(tc.as_slice(), nc.as_slice()) {
            return true;
        }
        i = i + 1;
    }
    false
}

/// Whether a text holds any of the needles, whatever the case of either.
pub fn contains_any(haystack: &str, needles: &[String]) -> (r: bool)
    ensures
        r == holds_any(lowercase_of(haystack@), texts(needles@)),
{
    let h = to_lower(haystack);
    let ghost nv = texts(needles@);
    let mut lowered: Vec<String> = Vec::new();
    let mut i: usize = 0;
    while i < needles.len()
        invariant
            i <= needles@.len(),
            nv == texts(needles@),
            lowered@.len() == i,
            forall|j: int| 0 <= j < i ==> (#[trigger] lowered@[j])@ == lowercase_of(nv[j]),
        decreases needles@.len() - i,
    {
        lowered.push(to_lower(needles[i].as_str()));
        i = i + 1;
    }
    let r = contains_any_lowered(h.as_str(), lowered.as_slice());
    proof {
        let lv = lowered@;
        if r {
            let k = choose|k: int| 0 <= k < lv.len() && contains(h@, #[trigger] lv[k]@);
            assert(contains(h@, lowercase_of(nv[k])));
        }
        if holds_any(h@, nv) {
            let k = choose|k: int| 0 <= k < nv.len() && contains(h@, lowercase_of(#[trigger] nv[k]));
            assert(contains(h@, lv[k]@));
        }
    }
    r
}

/// What an ask run scored, given whether the material was gathered and whether
/// the answer used it. An unanswerable question passes only by not claiming
/// the material.
pub fn ask_result(q: &AskQuestion, retrieved: bool, answered: bool, rounds: usize, used_transcript: bool) -> (r: AskResult)
    ensures
        r.id@ == q.id@,
        r.category@ == q.category@,
        r.retrieved == retrieved,
        r.answered == answered,
        r.rounds == rounds,
        r.used_transcript == used_transcript,
        r.passed == (answered != q.unanswerable),
{
    AskResult {
        id: q.id.clone(),
        category: q.category.clone(),
        retrieved,
        answered,
        rounds,
        used_transcript,
        passed: if q.unanswerable {
            !answered
        } else {
            answered
        },
    }
}

/// Scores an ask run by everything that it gathered and by its answer.
pub fn score_ask(q: &AskQuestion, pool: &str, answer: &str, rounds: usize, used_transcript: bool) -> (r: AskResult)
    ensures
        r.id@ == q.id@,
        r.category@ == q.category@,
        r.retrieved == holds_any(lowercase_of(pool@), texts(q.expect_any@)),
        r.answered == holds_any(lowercase_of(answer@), texts(q.expect_any@)),
        r.rounds == rounds,
        r.used_transcript == used_transcript,
        r.passed == (holds_any(lowercase_of(answer@), texts(q.expect_any@)) != q.unanswerable),
{
    let retrieved: bool = contains_any(pool, q.expect_any.as_slice());
    let answered: bool = contains_any(answer, q.expect_any.as_slice());
    ask_result(q, retrieved, answered, rounds, used_transcript)
}

/// Why a line's ask question is refused: it could not be parsed.
pub open spec fn first_ask_refusal(parses: Seq<(usize, Result<AskQuestion, String>)>) -> Option<Seq<char>>
    decreases parses.len(),
{
    if parses.len() == 0 {
        None
    } else {
        match parses[0].1 {
            Err(e) => Some("ask question set line "@ + dec(parses[0].0 as int) + ": "@ + e@),
            Ok(_) => first_ask_refusal(parses.drop_first()),
        }
    }
}

/// Collects the ask questions of a file from what each of its lines was parsed
/// to. The first line that could not be parsed refuses the file.
pub fn parse_ask_questions(parses: Vec<(usize, Result<AskQuestion, String>)>) -> (r: Result<Vec<AskQuestion>, KbError>)
    ensures
        r is Err ==> r->Err_0 is Other,
        r is Ok <==> first_ask_refusal(parses@) is None,
        r is Ok ==> r->Ok_0@.len() == parses@.len() && forall|i: int|
            0 <= i < parses@.len() ==> Ok::<AskQuestion, String>(#[trigger] r->Ok_0@[i]) == parses@[i].1,
        r is Err ==> r->Err_0@ == first_ask_refusal(parses@)->0,
{
    let ghost all = parses@;
    let mut rest = parses;
    let mut out: Vec<AskQuestion> = Vec::new();
    assert(all.skip(0) =~= all);
    while rest.len() > 0
        invariant
            all == parses@,
            out@.len() <= all.len(),
            rest@ == all.skip(out@.len() as int),
            first_ask_refusal(rest@) == first_ask_refusal(all),
            forall|i: int| 0 <= i < out@.len() ==> Ok::<AskQuestion, String>(#[trigger] out@[i]) == all[i].1,
        decreases rest@.len(),
    {
        let ghost before = rest@;
        let (number, parse) = rest.remove(0);
        assert(rest@ =~= before.drop_first());
        assert(before.drop_first() =~= all.skip(out@.len() as int + 1));
        match parse {
            Err(e) => {
                let mut m = chars_of("ask question set line ");
                push_usize(&mut m, number);
                push_text(&mut m, ": ");
                push_text(&mut m, e.as_str());
                return Err(KbError::Other(string_of(m.as_slice())));
            },
            Ok(q) => {
                out.push(q);
            },
        }
    }
    Ok(out)
}

} // verus!
