//! What a run came to, as it is remembered and read back.

use vstd::prelude::*;

use crate::code_index::rows::opt_view;
use crate::improve::result::{or_none, push_or_none, ImproveResult};
use crate::memory::Memory;
use crate::text::{
    chars_of, contains, ends_with, find, has_prefix, has_suffix, holds_text, is_space, join, joined_texts,
    lemma_find_char, lemma_find_is, lemma_texts_push, lines, lines_of, occurs_at, position, push_all, push_text,
    split_on, split_text, starts_with, string_of, tail, texts, trim, trim_end_of, trimmed, trimmed_end_of, views,
};

verus! {

/// How the sources of outcome memories begin.
pub const OUTCOME_SOURCE_PREFIX: &'static str = "improve ";

/// The importance of outcome memories.
pub const OUTCOME_IMPORTANCE: i64 = 6;

/// So many failed runs in a row fail the health check.
pub const HEALTH_FAIL_STREAK: usize = 3;

/// What one run came to.
#[derive(Debug, Clone, PartialEq, Eq)]
pub enum Outcome {
    Applied { result: ImproveResult, sha: String },
    Nothing { rationale: String },
    Failed { reason: String },
}

/// The text of a list of files, or the words for there being none.
pub open spec fn files_text(files: Seq<Seq<char>>) -> Seq<char> {
    if files.len() == 0 {
        "no files"@
    } else {
        join(files, ", "@)
    }
}

/// How the memory of a failed run begins.
pub const FAILED_TEXT: &'static str = "Improve run failed and was rolled back: ";

impl Outcome {
    /// What tags the source of the memory.
    pub open spec fn tag(self) -> Seq<char> {
        match self {
            Outcome::Applied { result, sha } => sha@,
            Outcome::Nothing { .. } => "none"@,
            Outcome::Failed { .. } => "failed"@,
        }
    }

    /// The source of the memory.
    pub open spec fn source(self, now: Seq<char>) -> Seq<char> {
        OUTCOME_SOURCE_PREFIX@ + now + " "@ + self.tag()
    }

    /// The text of the memory.
    pub open spec fn text(self) -> Seq<char> {
        match self {
            Outcome::Applied { result, sha } => "Improve run applied `"@ + result.action.word() + "` to "@ + files_text(
                texts(result.files@),
            ) + " (chezmoi commit "@ + sha@ + "). Rationale: "@ + trim(result.rationale@) + " Evidence: "@ + or_none(
                result.evidence@,
            ) + "."@,
            Outcome::Nothing { rationale } => "Improve run decided no config change was warranted. Rationale: "@ + trim(
                rationale@,
            ),
            Outcome::Failed { reason } => FAILED_TEXT@ + trim(reason@),
        }
    }

    /// Whether the run failed.
    pub fn is_failure(&self) -> (r: bool)
        ensures
            r == (self is Failed),
    {
        matches!(self, Outcome::Failed { .. })
    }

    /// The source of the memory.
    pub fn memory_source(&self, now: &str) -> (r: String)
        ensures
            r@ == self.source(now@),
    {
        let mut s = chars_of(OUTCOME_SOURCE_PREFIX);
        push_text(&mut s, now);
        push_text(&mut s, " ");
        match self {
            Outcome::Applied { result: _, sha } => push_text(&mut s, sha.as_str()),
            Outcome::Nothing { .. } => push_text(&mut s, "none"),
            Outcome::Failed { .. } => push_text(&mut s, "failed"),
        }
        string_of(s.as_slice())
    }

    /// The text of the memory.
    pub fn memory_text(&self) -> (r: String)
        ensures
            r@ == self.text(),
    {
        let mut s: Vec<char>;
        match self {
            Outcome::Applied { result, sha } => {
                s = chars_of("Improve run applied `");
                push_text(&mut s, result.action.as_str());
                push_text(&mut s, "` to ");
                assert(texts(result.files@).len() == result.files@.len());
                if result.files.len() == 0 {
                    push_text(&mut s, "no files");
                } else {
                    let j = joined_texts(result.files.as_slice(), ", ");
                    push_all(&mut s, j.as_slice());
                }
                push_text(&mut s, " (chezmoi commit ");
                push_text(&mut s, sha.as_str());
                push_text(&mut s, "). Rationale: ");
                let rc = chars_of(result.rationale.as_str());
                push_all(&mut s, trimmed(rc.as_slice()));
                push_text(&mut s, " Evidence: ");
                push_or_none(&mut s, result.evidence.as_str());
                push_text(&mut s, ".");
            },
            Outcome::Nothing { rationale } => {
                s = chars_of("Improve run decided no config change was warranted. Rationale: ");
                let rc = chars_of(rationale.as_str());
                push_all(&mut s, trimmed(rc.as_slice()));
            },
            Outcome::Failed { reason } => {
                s = chars_of(FAILED_TEXT);
                let rc = chars_of(reason.as_str());
                push_all(&mut s, trimmed(rc.as_slice()));
            },
        }
        string_of(s.as_slice())
    }
}

// --- failures ---

/// How many of the newest runs failed without a success among them, up to `n`.
pub open spec fn failing_run(recent: Seq<bool>, n: int) -> int
    decreases recent.len(),
{
    if n <= 0 || recent.len() == 0 || !recent[0] {
        0
    } else {
        1 + failing_run(recent.drop_first(), n - 1)
    }
}

/// Consecutive failures counting back from the newest run, up to the limit of
/// the health check. A run that succeeded resets them.
pub fn failure_streak(recent_failed: &[bool]) -> (r: usize)
    ensures
        r == failing_run(recent_failed@, HEALTH_FAIL_STREAK as int),
        r <= HEALTH_FAIL_STREAK,
{
    let mut n: usize = 0;
    assert(recent_failed@.skip(0) =~= recent_failed@);
    while n < HEALTH_FAIL_STREAK && n < recent_failed.len() && recent_failed[n]
        invariant
            n <= HEALTH_FAIL_STREAK,
            n <= recent_failed@.len(),
            failing_run(recent_failed@, HEALTH_FAIL_STREAK as int) == n + failing_run(
                recent_failed@.skip(n as int),
                HEALTH_FAIL_STREAK - n,
            ),
        decreases HEALTH_FAIL_STREAK - n,
    {
        assert(recent_failed@.skip(n as int).drop_first() =~= recent_failed@.skip(n + 1));
        n = n + 1;
    }
    n
}

/// The streak reaches the limit exactly when the newest runs, as many as the
/// limit, all failed: one success among them resets it.
pub proof fn law_streak_is_consecutive(recent: Seq<bool>)
    ensures
        failing_run(recent, HEALTH_FAIL_STREAK as int) >= HEALTH_FAIL_STREAK <==> recent.len() >= HEALTH_FAIL_STREAK
            && recent[0] && recent[1] && recent[2],
{
    let a = recent.drop_first();
    let b = a.drop_first();
    let c = b.drop_first();
    assert(failing_run(recent, 3) == if recent.len() == 0 || !recent[0] {
        0
    } else {
        1 + failing_run(a, 2)
    });
    assert(failing_run(a, 2) == if a.len() == 0 || !a[0] {
        0
    } else {
        1 + failing_run(b, 1)
    });
    assert(failing_run(b, 1) == if b.len() == 0 || !b[0] {
        0
    } else {
        1 + failing_run(c, 0)
    });
    assert(failing_run(c, 0) == 0);
    if recent.len() >= 2 {
        assert(a[0] == recent[1]);
    }
    if recent.len() >= 3 {
        assert(b[0] == recent[2]);
    }
}

/// Whether the health check of the pass passes: a run was completed lately, and
/// the newest runs did not all fail.
pub fn health_ok(fresh: bool, recent_failed: &[bool]) -> (r: bool)
    ensures
        r == (fresh && failing_run(recent_failed@, HEALTH_FAIL_STREAK as int) < HEALTH_FAIL_STREAK),
{
    fresh && failure_streak(recent_failed) < HEALTH_FAIL_STREAK
}

/// Whether a memory's source is that of a failed run.
pub open spec fn is_failed_source(source: Option<Seq<char>>) -> bool {
    match source {
        Some(s) => starts_with(s, OUTCOME_SOURCE_PREFIX@) && ends_with(s, " failed"@),
        None => false,
    }
}

/// Whether a memory records a failed run.
pub fn is_failed_outcome(m: &Memory) -> (r: bool)
    ensures
        r == is_failed_source(opt_view(m.source)),
{
    match &m.source {
        Some(s) => {
            let sc = chars_of(s.as_str());
            has_prefix(sc.as_slice(), OUTCOME_SOURCE_PREFIX) && has_suffix(sc.as_slice(), " failed")
        },
        None => false,
    }
}

/// A failed run is remembered as one; a run that did nothing is not, and an
/// applied one is not, unless its commit itself ends in the word for failure,
/// which no abbreviated hash does.
pub proof fn law_failed_runs_are_recognised(o: Outcome, now: Seq<char>)
    ensures
        o is Failed ==> is_failed_source(Some(o.source(now))),
        o is Nothing ==> !is_failed_source(Some(o.source(now))),
        o is Applied ==> (is_failed_source(Some(o.source(now))) <==> o.tag() == "failed"@ || ends_with(
            o.tag(),
            " failed"@,
        )),
{
    reveal_strlit("improve ");
    reveal_strlit("failed");
    reveal_strlit(" failed");
    reveal_strlit(" ");
    reveal_strlit("none");
    let s = o.source(now);
    assert(s.take(8) =~= OUTCOME_SOURCE_PREFIX@);
    if o is Failed {
        assert(s.skip(s.len() - 7) =~= " failed"@);
    }
    if o is Nothing {
        assert(s.last() == 'e');
        if ends_with(s, " failed"@) {
            assert(s.skip(s.len() - 7)[6] == s.last());
        }
    }
    if o is Applied {
        let t = o.tag();
        let w = " failed"@;
        let n = s.len() as int;
        let k = t.len() as int;
        assert(s[n - k - 1] == ' ');
        assert(forall|j: int| 0 <= j < k ==> s[n - k + j] == t[j]);
        if ends_with(s, w) {
            let e = s.skip(n - 7);
            assert(e == w);
            assert(forall|j: int| 0 <= j < 7 ==> #[trigger] e[j] == s[n - 7 + j]);
            if k < 6 {
                assert(e[6 - k] == s[n - k - 1]);
            } else if k == 6 {
                assert(t =~= "failed"@) by {
                    assert forall|j: int| 0 <= j < 6 implies t[j] == "failed"@[j] by {
                        assert(e[j + 1] == s[n - 7 + (j + 1)]);
                    }
                }
            } else {
                assert(t.skip(k - 7) =~= w) by {
                    assert forall|j: int| 0 <= j < 7 implies t.skip(k - 7)[j] == w[j] by {
                        assert(e[j] == s[n - 7 + j]);
                        assert(s[n - k + (k - 7 + j)] == t[k - 7 + j]);
                    }
                }
            }
        }
        if t == "failed"@ {
            assert(s.skip(n - 7) =~= w);
        }
        if ends_with(t, w) {
            assert(s.skip(n - 7) =~= t.skip(k - 7));
        }
    }
}

// --- the two guards before a run ---

/// The reason that names write targets with uncommitted changes.
pub const UNCOMMITTED_TARGETS_PREFIX: &'static str = "chezmoi source has uncommitted changes in write targets: ";

/// The reason that names write targets which differ from their source.
pub const PRE_RUN_DRIFT_PREFIX: &'static str = "chezmoi source drifted from write targets before the run (human edit in progress?): ";

/// A reason with the paths that it is about.
pub open spec fn reason_with(prefix: Seq<char>, paths: Seq<Seq<char>>) -> Seq<char> {
    prefix + join(paths, ", "@)
}

/// The first line of a text, or the text where it has none.
pub open spec fn head_line(text: Seq<char>) -> Seq<char> {
    if lines(text).len() > 0 {
        lines(text)[0]
    } else {
        text
    }
}

/// The pieces without white space around them, where anything is left.
pub open spec fn named_pieces(parts: Seq<Seq<char>>) -> Seq<Seq<char>>
    decreases parts.len(),
{
    if parts.len() == 0 {
        Seq::empty()
    } else if trim(parts.last()).len() > 0 {
        named_pieces(parts.drop_last()).push(trim(parts.last()))
    } else {
        named_pieces(parts.drop_last())
    }
}

/// The paths that stand behind a reason's prefix anywhere in a text, up to the
/// end of that line; `None` where the prefix or every path is missing.
pub open spec fn paths_behind(prefix: Seq<char>, text: Seq<char>) -> Option<Seq<Seq<char>>> {
    let k = find(text, prefix);
    let list = trim_end_of(head_line(text.skip(k + prefix.len())), '.', '.');
    let paths = named_pieces(split_on(list, ", "@));
    if k >= 0 && paths.len() > 0 {
        Some(paths)
    } else {
        None
    }
}

fn build_reason(prefix: &str, paths: &[String]) -> (r: String)
    ensures
        r@ == reason_with(prefix@, texts(paths@)),
{
    let mut s = chars_of(prefix);
    let j = joined_texts(paths, ", ");
    push_all(&mut s, j.as_slice());
    string_of(s.as_slice())
}

/// The view of an optional list of texts.
pub open spec fn list_view(o: Option<Vec<String>>) -> Option<Seq<Seq<char>>> {
    match o {
        Some(v) => Some(texts(v@)),
        None => None,
    }
}

fn read_paths(prefix: &str, text: &str) -> (r: Option<Vec<String>>)
    ensures
        list_view(r) == paths_behind(prefix@, text@),
{
    let tc = chars_of(text);
    let pc = chars_of(prefix);
    let end: usize = tc.len();
    let k: usize = match position(tc.as_slice(), prefix) {
        Some(k) => k,
        None => {
            return None;
        },
    };
    assert(k + pc.len() <= end);
    let rest = tail(tc.as_slice(), k + pc.len());
    let ls = lines_of(rest);
    assert(views(ls@).len() == ls@.len());
    let first: &[char] = if ls.len() > 0 {
        assert(views(ls@)[0] == ls@[0]@);
        ls[0]
    } else {
        rest
    };
    proof {
        reveal_strlit(", ");
    }
    let parts = split_text(trimmed_end_of(first, '.', '.'), ", ");
    let ghost pv = views(parts@);
    let mut out: Vec<String> = Vec::new();
    let mut i: usize = 0;
    assert(texts(out@) =~= named_pieces(pv.take(0)));
    while i < parts.len()
        invariant
            i <= parts@.len(),
            pv == views(parts@),
            texts(out@) == named_pieces(pv.take(i as int)),
        decreases parts@.len() - i,
    {
        assert(pv.take(i + 1).drop_last() =~= pv.take(i as int));
        let p = trimmed(parts[i]);
        if p.len() > 0 {
            let s = string_of(p);
            proof {
                lemma_texts_push(out@, s);
            }
            out.push(s);
        }
        i = i + 1;
    }
    assert(pv.take(i as int) =~= pv);
    assert(texts(out@).len() == out@.len());
    if out.len() == 0 {
        None
    } else {
        Some(out)
    }
}

/// The reason for a run that was stopped by uncommitted write targets.
pub fn uncommitted_targets_reason(paths: &[String]) -> (r: String)
    ensures
        r@ == reason_with(UNCOMMITTED_TARGETS_PREFIX@, texts(paths@)),
{
    build_reason(UNCOMMITTED_TARGETS_PREFIX, paths)
}

/// The uncommitted write targets that a text names.
pub fn parse_uncommitted_targets(text: &str) -> (r: Option<Vec<String>>)
    ensures
        list_view(r) == paths_behind(UNCOMMITTED_TARGETS_PREFIX@, text@),
{
    read_paths(UNCOMMITTED_TARGETS_PREFIX, text)
}

/// The reason for a run that was stopped by write targets which differ from
/// their source.
pub fn pre_run_drift_reason(paths: &[String]) -> (r: String)
    ensures
        r@ == reason_with(PRE_RUN_DRIFT_PREFIX@, texts(paths@)),
{
    build_reason(PRE_RUN_DRIFT_PREFIX, paths)
}

/// The write targets that a text names as differing from their source.
pub fn parse_pre_run_drift(text: &str) -> (r: Option<Vec<String>>)
    ensures
        list_view(r) == paths_behind(PRE_RUN_DRIFT_PREFIX@, text@),
{
    read_paths(PRE_RUN_DRIFT_PREFIX, text)
}

/// Whether a memory records a run that was stopped for the reason.
pub open spec fn stopped_by(m: Memory, prefix: Seq<char>) -> bool {
    is_failed_source(opt_view(m.source)) && contains(m.content@, prefix)
}

/// Whether a memory records a run that was stopped by uncommitted targets.
pub fn is_uncommitted_targets_outcome(m: &Memory) -> (r: bool)
    ensures
        r == stopped_by(*m, UNCOMMITTED_TARGETS_PREFIX@),
{
    if !is_failed_outcome(m) {
        return false;
    }
    let cc = chars_of(m.content.as_str());
    holds_text(cc.as_slice(), UNCOMMITTED_TARGETS_PREFIX)
}

/// Whether a memory records a run that was stopped by targets which differ
/// from their source.
pub fn is_pre_run_drift_outcome(m: &Memory) -> (r: bool)
    ensures
        r == stopped_by(*m, PRE_RUN_DRIFT_PREFIX@),
{
    if !is_failed_outcome(m) {
        return false;
    }
    let cc = chars_of(m.content.as_str());
    holds_text(cc.as_slice(), PRE_RUN_DRIFT_PREFIX)
}

/// Whether every run of a streak was stopped for the reason.
pub open spec fn all_stopped_by(streak: Seq<&Memory>, prefix: Seq<char>) -> bool {
    forall|i: int| 0 <= i < streak.len() ==> stopped_by(*#[trigger] streak[i], prefix)
}

/// What is said of a streak of failures, newest first, that one of the guards
/// explains: since when it lasts (its oldest run), and the paths that its
/// newest names. `None` where the streak is empty or mixes its reasons.
pub open spec fn block_detail(streak: Seq<&Memory>) -> Option<Seq<char>> {
    if streak.len() == 0 {
        None
    } else {
        let since = "blocked since "@ + streak.last().created_at@;
        if all_stopped_by(streak, UNCOMMITTED_TARGETS_PREFIX@) {
            match paths_behind(UNCOMMITTED_TARGETS_PREFIX@, streak[0].content@) {
                Some(p) => Some(since + " \u{2014} uncommitted: "@ + join(p, ", "@)),
                None => None,
            }
        } else if all_stopped_by(streak, PRE_RUN_DRIFT_PREFIX@) {
            let paths = match paths_behind(PRE_RUN_DRIFT_PREFIX@, streak[0].content@) {
                Some(p) => join(p, ", "@),
                None => "run chezmoi add on the edited targets"@,
            };
            Some(since + " \u{2014} targets differ from chezmoi source: "@ + paths)
        } else {
            None
        }
    }
}

/// What is said of a streak of failures that one of the guards explains.
pub fn uncommitted_block_detail(streak_newest_first: &[&Memory]) -> (r: Option<String>)
    ensures
        opt_view(r) == block_detail(streak_newest_first@),
{
    let n: usize = streak_newest_first.len();
    if n == 0 {
        return None;
    }
    let mut all_uncommitted: bool = true;
    let mut all_drift: bool = true;
    let mut i: usize = 0;
    while i < n
        invariant
            i <= n,
            n == streak_newest_first@.len(),
            all_uncommitted == forall|j: int|
                0 <= j < i ==> stopped_by(*#[trigger] streak_newest_first@[j], UNCOMMITTED_TARGETS_PREFIX@),
            all_drift == forall|j: int|
                0 <= j < i ==> stopped_by(*#[trigger] streak_newest_first@[j], PRE_RUN_DRIFT_PREFIX@),
        decreases n - i,
    {
        let m: &Memory = streak_newest_first[i];
        if !is_uncommitted_targets_outcome(m) {
            all_uncommitted = false;
        }
        if !is_pre_run_drift_outcome(m) {
            all_drift = false;
        }
        i = i + 1;
    }
    assert(all_uncommitted == all_stopped_by(streak_newest_first@, UNCOMMITTED_TARGETS_PREFIX@));
    assert(all_drift == all_stopped_by(streak_newest_first@, PRE_RUN_DRIFT_PREFIX@));
    let newest: &Memory = streak_newest_first[0];
    let oldest: &Memory = streak_newest_first[n - 1];
    let mut s = chars_of("blocked since ");
    push_text(&mut s, oldest.created_at.as_str());
    if all_uncommitted {
        return match parse_uncommitted_targets(newest.content.as_str()) {
            Some(paths) => {
                push_text(&mut s, " \u{2014} uncommitted: ");
                let j = joined_texts(paths.as_slice(), ", ");
                push_all(&mut s, j.as_slice());
                Some(string_of(s.as_slice()))
            },
            None => None,
        };
    }
    if all_drift {
        push_text(&mut s, " \u{2014} targets differ from chezmoi source: ");
        match parse_pre_run_drift(newest.content.as_str()) {
            Some(paths) => {
                let j = joined_texts(paths.as_slice(), ", ");
                push_all(&mut s, j.as_slice());
            },
            None => {
                push_text(&mut s, "run chezmoi add on the edited targets");
            },
        }
        return Some(string_of(s.as_slice()));
    }
    None
}

// --- reading a reason back ---

/// A path that a list of paths can hold and give back: not empty, no white
/// space around it, on one line, and without the list's separator in it.
pub open spec fn is_listable(p: Seq<char>) -> bool {
    &&& p.len() > 0
    &&& !is_space(p[0])
    &&& !is_space(p.last())
    &&& !p.contains('\n')
    &&& !contains(p, ", "@)
}

/// A list of paths can be joined from its front as well as from its end.
pub(crate) proof fn lemma_join_front(parts: Seq<Seq<char>>, sep: Seq<char>)
    requires
        parts.len() >= 2,
    ensures
        join(parts, sep) == parts[0] + sep + join(parts.drop_first(), sep),
    decreases parts.len(),
{
    let d = parts.drop_last();
    let f = parts.drop_first();
    if parts.len() == 2 {
        assert(d =~= seq![parts[0]]);
        assert(f =~= seq![parts[1]]);
        assert(join(d, sep) == parts[0]);
        assert(join(f, sep) == parts[1]);
    } else {
        lemma_join_front(d, sep);
        assert(d.drop_first() =~= f.drop_last());
        assert(join(f, sep) == join(f.drop_last(), sep) + sep + f.last());
        assert(join(parts, sep) =~= parts[0] + sep + join(f, sep));
    }
}

/// What a joined list begins and ends with, and that it stays on one line.
proof fn lemma_joined_paths(parts: Seq<Seq<char>>)
    requires
        parts.len() > 0,
        forall|i: int| 0 <= i < parts.len() ==> is_listable(#[trigger] parts[i]),
    ensures
        join(parts, ", "@).len() > 0,
        join(parts, ", "@)[0] == parts[0][0],
        join(parts, ", "@).last() == parts.last().last(),
        !join(parts, ", "@).contains('\n'),
    decreases parts.len(),
{
    reveal_strlit(", ");
    let all = join(parts, ", "@);
    assert(is_listable(parts[parts.len() - 1]));
    assert(is_listable(parts[0]));
    if parts.len() > 1 {
        let d = parts.drop_last();
        assert forall|i: int| 0 <= i < d.len() implies is_listable(#[trigger] d[i]) by {
            assert(d[i] == parts[i]);
        }
        lemma_joined_paths(d);
        let front = join(d, ", "@);
        let last = parts.last();
        assert(all == front + ", "@ + last);
        if all.contains('\n') {
            let k = choose|k: int| 0 <= k < all.len() && all[k] == '\n';
            if k < front.len() {
                assert(front[k] == '\n');
                assert(front.contains('\n'));
            } else if k < front.len() + 2 {
                assert(all[k] == ", "@[k - front.len()]);
            } else {
                assert(last[k - front.len() - 2] == '\n');
                assert(last.contains('\n'));
            }
        }
    }
}

/// Splitting a joined list gives back the list.
proof fn lemma_split_joined(parts: Seq<Seq<char>>)
    requires
        parts.len() > 0,
        forall|i: int| 0 <= i < parts.len() ==> is_listable(#[trigger] parts[i]),
    ensures
        split_on(join(parts, ", "@), ", "@) == parts,
    decreases parts.len(),
{
    reveal_strlit(", ");
    let sep = ", "@;
    let all = join(parts, sep);
    let p0 = parts[0];
    assert(is_listable(p0));
    if parts.len() == 1 {
        crate::text::lemma_find_contains(p0, sep);
        assert(split_on(all, sep) =~= parts);
    } else {
        lemma_join_front(parts, sep);
        let f = parts.drop_first();
        let rest = join(f, sep);
        assert forall|i: int| 0 <= i < f.len() implies is_listable(#[trigger] f[i]) by {
            assert(f[i] == parts[i + 1]);
        }
        lemma_split_joined(f);
        let n = p0.len() as int;
        assert(all == p0 + sep + rest);
        assert(all.subrange(n, n + 2) =~= sep);
        assert forall|j: int| 0 <= j < n implies !occurs_at(all, sep, j) by {
            if occurs_at(all, sep, j) {
                let w = all.subrange(j, j + 2);
                assert(w[0] == ',' && w[1] == ' ');
                if j + 2 <= n {
                    assert(p0.subrange(j, j + 2) =~= w);
                    assert(occurs_at(p0, sep, j));
                    assert(contains(p0, sep));
                } else {
                    assert(all[n] == ',');
                    assert(w[1] == all[n]);
                }
            }
        }
        lemma_find_is(all, sep, n);
        assert(all.take(n) =~= p0);
        assert(all.skip(n + 2) =~= rest);
        assert(split_on(all, sep) =~= seq![p0] + f);
        assert(seq![p0] + f =~= parts);
    }
}

/// Pieces that need no trimming stay as they are.
proof fn lemma_pieces_stay(parts: Seq<Seq<char>>)
    requires
        forall|i: int| 0 <= i < parts.len() ==> is_listable(#[trigger] parts[i]),
    ensures
        named_pieces(parts) == parts,
    decreases parts.len(),
{
    if parts.len() > 0 {
        let d = parts.drop_last();
        assert forall|i: int| 0 <= i < d.len() implies is_listable(#[trigger] d[i]) by {
            assert(d[i] == parts[i]);
        }
        lemma_pieces_stay(d);
        assert(is_listable(parts[parts.len() - 1]));
        crate::code_index::scope::lemma_trim_noop(parts.last());
        assert(d.push(parts.last()) =~= parts);
    } else {
        assert(named_pieces(parts) =~= parts);
    }
}

/// Whether the two characters stand side by side nowhere among the first `n`
/// places of a text.
spec fn no_pair(s: Seq<char>, a: char, b: char, n: int) -> bool
    decreases n,
{
    n <= 0 || (!(s[n - 1] == a && s[n] == b) && no_pair(s, a, b, n - 1))
}

proof fn lemma_no_pair(s: Seq<char>, a: char, b: char, n: int, j: int)
    requires
        no_pair(s, a, b, n),
        0 <= j < n,
    ensures
        !(s[j] == a && s[j + 1] == b),
    decreases n,
{
    if j < n - 1 {
        lemma_no_pair(s, a, b, n - 1, j);
    }
}

/// Nothing that begins like a guard's reason stands in the words before it.
proof fn lemma_failed_text_has_no_ch()
    ensures
        FAILED_TEXT@.len() == 40,
        FAILED_TEXT@[39] == ' ',
        no_pair(FAILED_TEXT@, 'c', 'h', 39),
{
    reveal_strlit("Improve run failed and was rolled back: ");
    reveal_with_fuel(no_pair, 41);
}

/// What stands behind a reason's prefix in the memory of a failed run.
proof fn lemma_reason_is_found(prefix: Seq<char>, paths: Seq<Seq<char>>)
    requires
        prefix.len() >= 2,
        prefix[0] == 'c',
        prefix[1] == 'h',
        prefix.last() == ' ',
        paths.len() > 0,
        forall|i: int| 0 <= i < paths.len() ==> is_listable(#[trigger] paths[i]),
        paths.last().last() != '.',
    ensures
        paths_behind(prefix, FAILED_TEXT@ + trim(reason_with(prefix, paths))) == Some(paths),
{
    let list = join(paths, ", "@);
    let reason = prefix + list;
    let text = FAILED_TEXT@ + trim(reason);
    lemma_joined_paths(paths);
    lemma_split_joined(paths);
    lemma_pieces_stay(paths);
    lemma_failed_text_has_no_ch();
    assert(is_listable(paths[paths.len() - 1]));
    assert(reason.last() == list.last());
    assert(!is_space(reason[0]));
    assert(!is_space(reason.last()));
    crate::code_index::scope::lemma_trim_noop(reason);
    assert(trim(reason) == reason);
    let n = prefix.len() as int;
    assert(text.subrange(40, 40 + n) =~= prefix);
    assert forall|j: int| 0 <= j < 40 implies !occurs_at(text, prefix, j) by {
        if occurs_at(text, prefix, j) {
            let w = text.subrange(j, j + n);
            assert(w[0] == text[j] && w[1] == text[j + 1]);
            assert(text[j] == FAILED_TEXT@[j]);
            if j < 39 {
                assert(text[j + 1] == FAILED_TEXT@[j + 1]);
                lemma_no_pair(FAILED_TEXT@, 'c', 'h', 39, j);
            }
        }
    }
    lemma_find_is(text, prefix, 40);
    assert(text.skip(40 + n) =~= list);
    lemma_find_char(list, '\n');
    assert(lines(list) =~= seq![list]);
    assert(head_line(list) == list);
    assert(list.last() == paths.last().last());
    assert(trim_end_of(list, '.', '.') == list);
}

/// The uncommitted targets that stopped a run are read back from the memory of
/// that run. A path that a list cannot hold is left out (an empty one, one with
/// white space around it, with a line feed or with a comma and a space in it),
/// and so is a last path that ends with a full stop.
pub proof fn law_uncommitted_targets_read_back(o: Outcome, paths: Seq<Seq<char>>)
    requires
        o matches Outcome::Failed { reason } && reason@ == reason_with(UNCOMMITTED_TARGETS_PREFIX@, paths),
        paths.len() > 0,
        forall|i: int| 0 <= i < paths.len() ==> is_listable(#[trigger] paths[i]),
        paths.last().last() != '.',
    ensures
        paths_behind(UNCOMMITTED_TARGETS_PREFIX@, o.text()) == Some(paths),
{
    reveal_strlit("chezmoi source has uncommitted changes in write targets: ");
    lemma_reason_is_found(UNCOMMITTED_TARGETS_PREFIX@, paths);
}

/// The targets whose difference stopped a run are read back from the memory of
/// that run, with the same paths left out.
pub proof fn law_pre_run_drift_reads_back(o: Outcome, paths: Seq<Seq<char>>)
    requires
        o matches Outcome::Failed { reason } && reason@ == reason_with(PRE_RUN_DRIFT_PREFIX@, paths),
        paths.len() > 0,
        forall|i: int| 0 <= i < paths.len() ==> is_listable(#[trigger] paths[i]),
        paths.last().last() != '.',
    ensures
        paths_behind(PRE_RUN_DRIFT_PREFIX@, o.text()) == Some(paths),
{
    reveal_strlit("chezmoi source drifted from write targets before the run (human edit in progress?): ");
    lemma_reason_is_found(PRE_RUN_DRIFT_PREFIX@, paths);
}

} // verus!
