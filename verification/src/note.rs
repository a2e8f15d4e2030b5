//! Quick notes: a note becomes one or more facts under one topic, and is never
//! lost to a reply that makes no sense.

use vstd::prelude::*;

use crate::assistant::{program, program_name};
use crate::code_index::rows::opt_str_view;
use crate::code_index::rows::opt_view;
use crate::letters::{
    ascii_lower, has_prefix_letters, is_alnum_char, is_ascii_alnum, lower_char, starts_with_letters,
};
use crate::numeral::{dec, parse_i64, push_usize, read_i64};
use crate::text::{
    chars_of, join, joined, joined_texts, lemma_texts_push, lines, lines_of, owned, push_all, push_text, same_text,
    string_of, tail, texts, trim, trimmed, views, words, words_of,
};

verus! {

/// The importance of a note's facts where none is given.
pub const DEFAULT_IMPORTANCE: i64 = 6;

/// What a note was classified as: one topic, a title to refer to it by, and
/// the facts that it holds.
#[derive(Debug, Clone, PartialEq, Eq)]
pub struct Classification {
    pub topic: String,
    pub title: String,
    pub facts: Vec<String>,
}

/// What a classification says.
pub ghost struct ClassView {
    pub topic: Seq<char>,
    pub title: Seq<char>,
    pub facts: Seq<Seq<char>>,
}

impl View for Classification {
    type V = ClassView;

    open spec fn view(&self) -> ClassView {
        ClassView { topic: self.topic@, title: self.title@, facts: texts(self.facts@) }
    }
}

// --- the prompt ---

/// How the prompt begins, up to the date.
pub const NOTE_PROMPT_HEAD: &'static str = "You are triaging a quick note for a personal knowledge bank. Split it into 1 or more self-contained, durable facts, each understandable on its own without the rest of the note. Convert any relative dates (\"tomorrow\", \"next month\", \"in two weeks\") into absolute dates -- today is ";

/// What the prompt says behind the date.
pub const NOTE_PROMPT_RULES: &'static str = ". Assign ONE short kebab-case topic for the whole note -- reuse one of the existing topics below if it genuinely fits the note, otherwise invent a new short one. Also produce a short, referable title (3-6 words) the user could use to recall this note in a later session.\n\n";

/// How the prompt ends.
pub const NOTE_PROMPT_TAIL: &'static str = "\n\nReply in EXACTLY this format and nothing else, one FACT line per fact (at least one), no numbering, no other text:\nTOPIC: <topic>\nTITLE: <title>\nFACT: <fact one>\nFACT: <fact two>\n";

/// What the prompt says of the topics that there are.
pub open spec fn topics_block(topics: Seq<Seq<char>>) -> Seq<char> {
    if topics.len() == 0 {
        "Existing topics: (none yet)\n\n"@
    } else {
        "Existing topics: "@ + join(topics, ", "@) + "\n\n"@
    }
}

/// The prompt that classifies a note.
pub open spec fn note_prompt(note: Seq<char>, topics: Seq<Seq<char>>, today: Seq<char>) -> Seq<char> {
    NOTE_PROMPT_HEAD@ + today + NOTE_PROMPT_RULES@ + topics_block(topics) + "Note:\n"@ + note + NOTE_PROMPT_TAIL@
}

/// Builds the prompt that classifies a note, with the topics to reuse.
pub fn build_prompt(note: &str, existing_topics: &Vec<String>, today: &str) -> (r: String)
    ensures
        r@ == note_prompt(note@, texts(existing_topics@), today@),
{
    let mut s = chars_of(NOTE_PROMPT_HEAD);
    push_text(&mut s, today);
    push_text(&mut s, NOTE_PROMPT_RULES);
    let ghost upto = s@;
    assert(texts(existing_topics@).len() == existing_topics@.len());
    if existing_topics.len() == 0 {
        push_text(&mut s, "Existing topics: (none yet)\n\n");
    } else {
        push_text(&mut s, "Existing topics: ");
        let j = joined_texts(existing_topics, ", ");
        push_all(&mut s, j.as_slice());
        push_text(&mut s, "\n\n");
    }
    assert(s@ =~= upto + topics_block(texts(existing_topics@)));
    push_text(&mut s, "Note:\n");
    push_text(&mut s, note);
    push_text(&mut s, NOTE_PROMPT_TAIL);
    string_of(s.as_slice())
}

// --- the reply ---

/// What a line of the reply says behind a label, trimmed; `None` where it does
/// not begin with the label.
pub open spec fn labelled(line: Seq<char>, label: Seq<char>) -> Option<Seq<char>> {
    let t = trim(line);
    if starts_with_letters(t, label) {
        Some(trim(t.skip(label.len() as int)))
    } else {
        None
    }
}

/// What has been read of a reply.
pub ghost struct NoteReading {
    pub topic: Option<Seq<char>>,
    pub title: Option<Seq<char>>,
    pub facts: Seq<Seq<char>>,
}

/// What a label gives: the first text for it that is not empty.
pub open spec fn first_given(sofar: Option<Seq<char>>, given: Seq<char>) -> Option<Seq<char>> {
    if sofar is None && given.len() > 0 {
        Some(given)
    } else {
        sofar
    }
}

/// One more line of a reply.
pub open spec fn read_note_line(st: NoteReading, line: Seq<char>) -> NoteReading {
    if labelled(line, "TOPIC:"@) is Some {
        NoteReading { topic: first_given(st.topic, labelled(line, "TOPIC:"@)->0), ..st }
    } else if labelled(line, "TITLE:"@) is Some {
        NoteReading { title: first_given(st.title, labelled(line, "TITLE:"@)->0), ..st }
    } else if labelled(line, "FACT:"@) is Some {
        let f = labelled(line, "FACT:"@)->0;
        if f.len() > 0 {
            NoteReading { facts: st.facts.push(f), ..st }
        } else {
            st
        }
    } else {
        st
    }
}

/// The lines of a reply, read one after the other.
pub open spec fn read_note(ls: Seq<Seq<char>>) -> NoteReading
    decreases ls.len(),
{
    if ls.len() == 0 {
        NoteReading { topic: None, title: None, facts: Seq::empty() }
    } else {
        read_note_line(read_note(ls.drop_last()), ls.last())
    }
}

/// The first six words of a note.
pub open spec fn first_words(note: Seq<char>) -> Seq<char> {
    let w = words(trim(note));
    join(
        if w.len() > 6 {
            w.take(6)
        } else {
            w
        },
        " "@,
    )
}

/// What a note is stored as where the reply makes no sense: the note itself,
/// under the topic `notes`.
pub open spec fn fallback(note: Seq<char>) -> ClassView {
    ClassView {
        topic: "notes"@,
        title: if first_words(note).len() == 0 {
            "untitled note"@
        } else {
            first_words(note)
        },
        facts: seq![trim(note)],
    }
}

/// What a reply makes of a note: its topic, title and facts where it gives
/// all three, else the note itself.
pub open spec fn classified(reply: Seq<char>, note: Seq<char>) -> ClassView {
    let st = read_note(lines(reply));
    if st.topic is Some && st.title is Some && st.facts.len() > 0 {
        ClassView { topic: st.topic->0, title: st.title->0, facts: st.facts }
    } else {
        fallback(note)
    }
}

/// Whatever answers the classification prompt. A failed call is an error in
/// words.
pub trait NoteLlm {
    fn call(&self, prompt: &str) -> Result<String, String>;
}

/// What a call comes to: its reply, or nothing where it failed.
pub open spec fn reply_of(out: Result<String, String>) -> Seq<char> {
    match out {
        Ok(reply) => reply@,
        Err(_) => Seq::empty(),
    }
}

/// Classifies a note: one call with the prompt, and the note itself where the
/// call fails or its reply makes no sense.
pub fn classify_note<L: NoteLlm>(llm: &L, note: &str, existing_topics: &Vec<String>, today: &str) -> (r: Classification)
    ensures
        exists|prompt: &str, out: Result<String, String>|
            prompt@ == note_prompt(note@, texts(existing_topics@), today@) && #[trigger] call_ensures(
                L::call,
                (llm, prompt),
                out,
            ) && r@ == classified(reply_of(out), note@),
{
    let text = build_prompt(note, existing_topics, today);
    let prompt: &str = text.as_str();
    let out = llm.call(prompt);
    let ghost given = out;
    let output: String = match out {
        Ok(reply) => reply,
        Err(_) => String::new(),
    };
    let r = parse_classification(output.as_str(), note);
    assert(output@ =~= reply_of(given));
    assert(call_ensures(L::call, (llm, prompt), given));
    r
}

/// The model that classifies notes, as a process.
#[derive(Debug, Clone)]
pub struct ProcessNoteLlm {
    pub claude_bin: String,
}

impl ProcessNoteLlm {
    /// The program that is set, or the one that the assistant's name gives.
    pub fn new(configured: Option<&str>, assistant: &str) -> (r: Self)
        ensures
            r.claude_bin@ == program(opt_str_view(configured), assistant@),
    {
        ProcessNoteLlm { claude_bin: program_name(configured, assistant) }
    }
}

/// What a line says behind a label, in any case.
fn strip_prefix_ci<'a>(line: &'a [char], label: &str) -> (r: Option<&'a [char]>)
    ensures
        r is Some == starts_with_letters(line@, label@),
        r is Some ==> (r->0)@ == line@.skip(label@.len() as int),
{
    if has_prefix_letters(line, label) {
        let lc = chars_of(label);
        Some(tail(line, lc.len()))
    } else {
        None
    }
}

/// The note itself as its only fact.
fn fallback_classification(note: &str) -> (r: Classification)
    ensures
        r@ == fallback(note@),
{
    let nc = chars_of(note);
    let t = trimmed(nc.as_slice());
    let mut w = words_of(t);
    let ghost all = views(w@);
    if w.len() > 6 {
        w.truncate(6);
        assert(views(w@) =~= all.take(6));
    }
    let title = joined(&w, " ");
    let mut facts: Vec<String> = Vec::new();
    facts.push(string_of(t));
    assert(texts(facts@) =~= seq![trim(note@)]);
    Classification {
        topic: owned("notes"),
        title: if title.len() == 0 {
            owned("untitled note")
        } else {
            string_of(title.as_slice())
        },
        facts,
    }
}

/// Reads the classifier's reply. One that does not give a topic, a title and a
/// fact falls back to the note itself, which is never lost.
pub fn parse_classification(output: &str, note: &str) -> (r: Classification)
    ensures
        r@ == classified(output@, note@),
{
    let oc = chars_of(output);
    let ls = lines_of(oc.as_slice());
    let ghost lv = views(ls@);
    let mut topic: Option<String> = None;
    let mut title: Option<String> = None;
    let mut facts: Vec<String> = Vec::new();
    let mut i: usize = 0;
    assert(texts(facts@) =~= read_note(lv.take(0)).facts);
    while i < ls.len()
        invariant
            i <= ls@.len(),
            lv == views(ls@),
            opt_view(topic) == read_note(lv.take(i as int)).topic,
            opt_view(title) == read_note(lv.take(i as int)).title,
            texts(facts@) == read_note(lv.take(i as int)).facts,
        decreases ls@.len() - i,
    {
        assert(lv.take(i + 1).drop_last() =~= lv.take(i as int));
        let line = trimmed(ls[i]);
        assert(lv.take(i + 1).last() == ls@[i as int]@);
        match strip_prefix_ci(line, "TOPIC:") {
            Some(rest) => {
                let t = trimmed(rest);
                if topic.is_none() && t.len() > 0 {
                    topic = Some(string_of(t));
                }
            },
            None => match strip_prefix_ci(line, "TITLE:") {
                Some(rest) => {
                    let t = trimmed(rest);
                    if title.is_none() && t.len() > 0 {
                        title = Some(string_of(t));
                    }
                },
                None => {
                    if let Some(rest) = strip_prefix_ci(line, "FACT:") {
                        let t = trimmed(rest);
                        if t.len() > 0 {
                            let f = string_of(t);
                            proof {
                                lemma_texts_push(facts@, f);
                            }
                            facts.push(f);
                        }
                    }
                },
            },
        }
        i = i + 1;
    }
    assert(lv.take(i as int) =~= lv);
    assert(texts(facts@).len() == facts@.len());
    match (topic, title) {
        (Some(topic), Some(title)) => {
            if facts.len() > 0 {
                Classification { topic, title, facts }
            } else {
                fallback_classification(note)
            }
        },
        _ => fallback_classification(note),
    }
}

proof fn lemma_read_note_nonempty(ls: Seq<Seq<char>>)
    ensures
        read_note(ls).topic matches Some(t) ==> t.len() > 0,
        read_note(ls).title matches Some(t) ==> t.len() > 0,
        forall|i: int| 0 <= i < read_note(ls).facts.len() ==> (#[trigger] read_note(ls).facts[i]).len() > 0,
    decreases ls.len(),
{
    if ls.len() > 0 {
        let d = ls.drop_last();
        lemma_read_note_nonempty(d);
        let sub = read_note(d).facts;
        let all = read_note(ls).facts;
        assert forall|i: int| 0 <= i < all.len() implies (#[trigger] all[i]).len() > 0 by {
            if i < sub.len() {
                assert(all[i] == sub[i]);
            }
        }
    }
}

/// Whatever the reply is, there is a topic, a title and at least one fact.
pub proof fn law_note_is_never_lost(reply: Seq<char>, note: Seq<char>)
    ensures
        classified(reply, note).topic.len() > 0,
        classified(reply, note).title.len() > 0,
        classified(reply, note).facts.len() > 0,
        classified(reply, note) == fallback(note) || forall|i: int|
            0 <= i < classified(reply, note).facts.len() ==> (#[trigger] classified(reply, note).facts[i]).len() > 0,
{
    lemma_read_note_nonempty(lines(reply));
    reveal_strlit("notes");
    reveal_strlit("untitled note");
}

// --- the slug ---

/// How many ASCII letters and digits a text begins with.
pub open spec fn alnum_len(s: Seq<char>) -> int
    decreases s.len(),
{
    if s.len() == 0 || !is_ascii_alnum(s[0]) {
        0
    } else {
        1 + alnum_len(s.drop_first())
    }
}

/// `s` with its ASCII capitals made small.
pub open spec fn small(s: Seq<char>) -> Seq<char> {
    crate::letters::ascii_lower_all(s)
}

/// The maximal runs of ASCII letters and digits of a text, in small letters.
pub open spec fn alnum_runs(s: Seq<char>) -> Seq<Seq<char>>
    decreases s.len(),
{
    if s.len() == 0 {
        Seq::empty()
    } else if !is_ascii_alnum(s[0]) {
        alnum_runs(s.drop_first())
    } else {
        let k = alnum_len(s);
        if 0 < k <= s.len() {
            seq![small(s.take(k))] + alnum_runs(s.skip(k))
        } else {
            Seq::empty()
        }
    }
}

/// A text in kebab case: its runs of letters and digits with a dash between
/// each two; `note` where it has none.
pub open spec fn slug(s: Seq<char>) -> Seq<char> {
    if alnum_runs(s).len() == 0 {
        "note"@
    } else {
        join(alnum_runs(s), "-"@)
    }
}

proof fn lemma_alnum_len(s: Seq<char>)
    ensures
        0 <= alnum_len(s) <= s.len(),
        s.len() > 0 && is_ascii_alnum(s[0]) ==> alnum_len(s) > 0,
        forall|j: int| 0 <= j < alnum_len(s) ==> is_ascii_alnum(s[j]),
    decreases s.len(),
{
    if s.len() > 0 && is_ascii_alnum(s[0]) {
        let t = s.drop_first();
        lemma_alnum_len(t);
        assert forall|j: int| 0 <= j < alnum_len(s) implies is_ascii_alnum(s[j]) by {
            if j > 0 {
                assert(t[j - 1] == s[j]);
            }
        }
    }
}

/// Kebab-cases a text for use in a source.
pub fn slugify(s: &str) -> (r: String)
    ensures
        r@ == slug(s@),
{
    let cs = chars_of(s);
    let mut runs: Vec<String> = Vec::new();
    let mut rest: &[char] = cs.as_slice();
    assert(texts(runs@) =~= Seq::empty());
    while rest.len() > 0
        invariant
            texts(runs@) + alnum_runs(rest@) == alnum_runs(s@),
        decreases rest@.len(),
    {
        let ghost before = texts(runs@);
        let ghost from = rest@;
        if !is_alnum_char(rest[0]) {
            assert(rest@.skip(1) =~= rest@.drop_first());
            rest = tail(rest, 1);
        } else {
            let mut k: usize = 0;
            let mut run: Vec<char> = Vec::new();
            assert(rest@.skip(0) =~= rest@);
            while k < rest.len() && is_alnum_char(rest[k])
                invariant
                    k <= rest@.len(),
                    alnum_len(rest@) == k + alnum_len(rest@.skip(k as int)),
                    run@.len() == k,
                    forall|j: int| 0 <= j < k ==> run@[j] == ascii_lower(rest@[j]),
                decreases rest@.len() - k,
            {
                assert(rest@.skip(k as int).drop_first() =~= rest@.skip(k + 1));
                run.push(lower_char(rest[k]));
                k = k + 1;
            }
            proof {
                lemma_alnum_len(rest@);
                assert(run@ =~= small(rest@.take(k as int)));
            }
            let word = string_of(run.as_slice());
            proof {
                lemma_texts_push(runs@, word);
            }
            runs.push(word);
            rest = tail(rest, k);
            assert(before + (seq![small(from.take(k as int))] + alnum_runs(rest@)) =~= before.push(word@) + alnum_runs(
                rest@,
            ));
        }
    }
    assert(texts(runs@) + Seq::<Seq<char>>::empty() =~= texts(runs@));
    assert(texts(runs@).len() == runs@.len());
    if runs.len() == 0 {
        return owned("note");
    }
    let j = joined_texts(&runs, "-");
    string_of(j.as_slice())
}

/// A small ASCII letter or a digit.
pub open spec fn is_slug_letter(c: char) -> bool {
    'a' <= c <= 'z' || '0' <= c <= '9'
}

proof fn lemma_runs_are_slug_letters(s: Seq<char>)
    ensures
        forall|i: int| 0 <= i < alnum_runs(s).len() ==> (#[trigger] alnum_runs(s)[i]).len() > 0,
        forall|i: int, j: int|
            0 <= i < alnum_runs(s).len() && 0 <= j < alnum_runs(s)[i].len() ==> is_slug_letter(
                #[trigger] alnum_runs(s)[i][j],
            ),
    decreases s.len(),
{
    if s.len() == 0 {
        assert(alnum_runs(s).len() == 0);
    } else if !is_ascii_alnum(s[0]) {
        lemma_runs_are_slug_letters(s.drop_first());
        assert(alnum_runs(s) == alnum_runs(s.drop_first()));
    } else {
        lemma_alnum_len(s);
        let k = alnum_len(s);
        lemma_runs_are_slug_letters(s.skip(k));
        let rest = alnum_runs(s.skip(k));
        let all = alnum_runs(s);
        assert(all == seq![small(s.take(k))] + rest);
        assert forall|i: int| 0 <= i < all.len() implies (#[trigger] all[i]).len() > 0 by {
            if i > 0 {
                assert(all[i] == rest[i - 1]);
            }
        }
        assert forall|i: int, j: int| 0 <= i < all.len() && 0 <= j < all[i].len() implies is_slug_letter(
            #[trigger] all[i][j],
        ) by {
            if i > 0 {
                assert(all[i] == rest[i - 1]);
                assert(is_slug_letter(rest[i - 1][j]));
            } else {
                assert(all[0][j] == ascii_lower(s[j]));
            }
        }
    }
}

proof fn lemma_join_slug(parts: Seq<Seq<char>>)
    requires
        parts.len() > 0,
        forall|i: int| 0 <= i < parts.len() ==> (#[trigger] parts[i]).len() > 0,
        forall|i: int, j: int| 0 <= i < parts.len() && 0 <= j < parts[i].len() ==> is_slug_letter(#[trigger] parts[i][j]),
    ensures
        is_slug(join(parts, "-"@)),
    decreases parts.len(),
{
    reveal_strlit("-");
    let all = join(parts, "-"@);
    if parts.len() == 1 {
        assert forall|i: int| 0 <= i < all.len() implies is_slug_letter(#[trigger] all[i]) by {
            assert(is_slug_letter(parts[0][i]));
        }
    } else {
        let d = parts.drop_last();
        assert forall|i: int, j: int| 0 <= i < d.len() && 0 <= j < d[i].len() implies is_slug_letter(
            #[trigger] d[i][j],
        ) by {
            assert(is_slug_letter(parts[i][j]));
        }
        lemma_join_slug(d);
        let front = join(d, "-"@);
        let last = parts.last();
        let n = front.len() as int;
        assert(all.len() == n + 1 + last.len());
        assert(parts[parts.len() - 1] == last);
        assert forall|i: int| 0 <= i < all.len() implies (is_slug_letter(#[trigger] all[i]) || (all[i] == '-' && 0 < i
            && i < all.len() - 1 && is_slug_letter(all[i - 1]) && is_slug_letter(all[i + 1]))) by {
            if i < n {
                assert(all[i] == front[i]);
                if i > 0 {
                    assert(all[i - 1] == front[i - 1]);
                }
                if i + 1 < n {
                    assert(all[i + 1] == front[i + 1]);
                }
            } else if i == n {
                assert(all[i] == '-');
                assert(all[i - 1] == front[n - 1]);
                assert(all[i + 1] == last[0]);
                assert(is_slug_letter(parts[parts.len() - 1][0]));
            } else {
                assert(all[i] == last[i - n - 1]);
                assert(is_slug_letter(parts[parts.len() - 1][i - n - 1]));
            }
        }
    }
}

/// A text of small letters, digits and dashes, in which every dash stands
/// between two of the others: none leads, none trails and no two meet.
pub open spec fn is_slug(s: Seq<char>) -> bool {
    s.len() > 0 && forall|i: int|
        0 <= i < s.len() ==> (is_slug_letter(#[trigger] s[i]) || (s[i] == '-' && 0 < i && i < s.len() - 1
            && is_slug_letter(s[i - 1]) && is_slug_letter(s[i + 1])))
}

/// Every slug is in kebab case and never empty.
pub proof fn law_slug_is_kebab_case(s: Seq<char>)
    ensures
        is_slug(slug(s)),
{
    if alnum_runs(s).len() == 0 {
        reveal_strlit("note");
    } else {
        lemma_runs_are_slug_letters(s);
        lemma_join_slug(alnum_runs(s));
    }
}

proof fn lemma_leading_run(p: Seq<char>, rest: Seq<char>)
    requires
        p.len() > 0,
        forall|j: int| 0 <= j < p.len() ==> is_slug_letter(#[trigger] p[j]),
        rest.len() > 0 ==> rest[0] == '-',
    ensures
        alnum_len(p + rest) == p.len(),
        small(p) == p,
        alnum_runs(p + rest) == seq![p] + alnum_runs(rest),
    decreases p.len(),
{
    let s = p + rest;
    assert(s[0] == p[0]);
    assert(small(p) =~= p);
    if p.len() == 1 {
        assert(s.drop_first() =~= rest);
        assert(alnum_len(rest) == 0);
    } else {
        assert(s.drop_first() =~= p.drop_first() + rest);
        lemma_leading_run(p.drop_first(), rest);
    }
    assert(s.take(p.len() as int) =~= p);
    assert(s.skip(p.len() as int) =~= rest);
}

proof fn lemma_runs_of_join(parts: Seq<Seq<char>>)
    requires
        parts.len() > 0,
        forall|i: int| 0 <= i < parts.len() ==> (#[trigger] parts[i]).len() > 0,
        forall|i: int, j: int| 0 <= i < parts.len() && 0 <= j < parts[i].len() ==> is_slug_letter(#[trigger] parts[i][j]),
    ensures
        alnum_runs(join(parts, "-"@)) == parts,
    decreases parts.len(),
{
    reveal_strlit("-");
    let p = parts[0];
    let none: Seq<char> = Seq::empty();
    if parts.len() == 1 {
        lemma_leading_run(p, none);
        assert(p + none =~= p);
        assert(alnum_runs(p) =~= parts);
    } else {
        let f = parts.drop_first();
        crate::improve::outcome::lemma_join_front(parts, "-"@);
        assert forall|i: int| 0 <= i < f.len() implies (#[trigger] f[i]).len() > 0 by {
            assert(f[i] == parts[i + 1]);
        }
        assert forall|i: int, j: int| 0 <= i < f.len() && 0 <= j < f[i].len() implies is_slug_letter(#[trigger] f[i][j]) by {
            assert(is_slug_letter(parts[i + 1][j]));
        }
        lemma_runs_of_join(f);
        let rest = "-"@ + join(f, "-"@);
        assert(join(parts, "-"@) =~= p + rest);
        lemma_leading_run(p, rest);
        assert(rest.drop_first() =~= join(f, "-"@));
        assert(alnum_runs(join(parts, "-"@)) =~= parts);
    }
}

/// A slug is its own slug.
pub proof fn law_slug_of_a_slug(s: Seq<char>)
    ensures
        slug(slug(s)) == slug(s),
{
    if alnum_runs(s).len() == 0 {
        reveal_strlit("note");
        let parts = seq!["note"@];
        assert(join(parts, "-"@) == "note"@);
        lemma_runs_of_join(parts);
    } else {
        lemma_runs_are_slug_letters(s);
        lemma_runs_of_join(alnum_runs(s));
    }
}

// --- the command ---

/// What the command line asks for.
#[derive(Debug, Clone)]
pub enum NoteArgs {
    /// The usage.
    Help,
    /// Nothing: this argument is one too many.
    Unexpected(String),
    /// A note, with its text where that was given, and its importance.
    Note(Option<String>, i64),
}

/// What the command line asks for, as the value that a contract speaks of.
pub ghost enum ArgsView {
    Help,
    Unexpected(Seq<char>),
    Note(Option<Seq<char>>, int),
}

impl View for NoteArgs {
    type V = ArgsView;

    open spec fn view(&self) -> ArgsView {
        match *self {
            NoteArgs::Help => ArgsView::Help,
            NoteArgs::Unexpected(a) => ArgsView::Unexpected(a@),
            NoteArgs::Note(c, i) => ArgsView::Note(opt_view(c), i as int),
        }
    }
}

/// The importance that an argument gives: a number, taken into the range from
/// 1 to 10; the default where it is none.
pub open spec fn importance_of(arg: Seq<char>) -> int {
    match read_i64(arg) {
        Some(n) => if n < 1 {
            1
        } else if n > 10 {
            10
        } else {
            n as int
        },
        None => DEFAULT_IMPORTANCE as int,
    }
}

/// What the rest of the arguments comes to, with what was given before it.
pub open spec fn note_args(args: Seq<Seq<char>>, content: Option<Seq<char>>, importance: int) -> ArgsView
    decreases args.len(),
{
    if args.len() == 0 {
        ArgsView::Note(content, importance)
    } else if args[0] == "-i"@ || args[0] == "--importance"@ {
        if args.len() == 1 {
            ArgsView::Note(content, DEFAULT_IMPORTANCE as int)
        } else {
            note_args(args.skip(2), content, importance_of(args[1]))
        }
    } else if args[0] == "-h"@ || args[0] == "--help"@ {
        ArgsView::Help
    } else if content is None {
        note_args(args.skip(1), Some(args[0]), importance)
    } else {
        ArgsView::Unexpected(args[0])
    }
}

fn read_importance(arg: &str) -> (r: i64)
    ensures
        r == importance_of(arg@),
{
    let ac = chars_of(arg);
    match parse_i64(ac.as_slice()) {
        Some(n) => if n < 1 {
            1
        } else if n > 10 {
            10
        } else {
            n
        },
        None => DEFAULT_IMPORTANCE,
    }
}

/// Reads the command's arguments.
pub fn parse_note_args(args: &Vec<String>) -> (r: NoteArgs)
    ensures
        r@ == note_args(texts(args@), None, DEFAULT_IMPORTANCE as int),
{
    let ghost av = texts(args@);
    let mut content: Option<String> = None;
    let mut importance: i64 = DEFAULT_IMPORTANCE;
    let mut i: usize = 0;
    assert(av.skip(0) =~= av);
    while i < args.len()
        invariant
            i <= args@.len(),
            av == texts(args@),
            note_args(av.skip(i as int), opt_view(content), importance as int) == note_args(
                av,
                None,
                DEFAULT_IMPORTANCE as int,
            ),
        decreases args@.len() - i,
    {
        let ghost rest = av.skip(i as int);
        let a: &str = args[i].as_str();
        assert(rest[0] == a@);
        assert(rest.skip(1) =~= av.skip(i + 1));
        if same_text(a, "-i") || same_text(a, "--importance") {
            if i + 1 == args.len() {
                return NoteArgs::Note(content, DEFAULT_IMPORTANCE);
            }
            assert(rest[1] == args@[i + 1]@);
            assert(rest.skip(2) =~= av.skip(i + 2));
            importance = read_importance(args[i + 1].as_str());
            i = i + 2;
        } else if same_text(a, "-h") || same_text(a, "--help") {
            return NoteArgs::Help;
        } else if content.is_none() {
            content = Some(args[i].clone());
            i = i + 1;
        } else {
            return NoteArgs::Unexpected(args[i].clone());
        }
    }
    NoteArgs::Note(content, importance)
}

/// The text of a note without the white space around it; `None` where that is
/// all there is.
pub fn note_text(raw: &str) -> (r: Option<String>)
    ensures
        opt_view(r) == if trim(raw@).len() > 0 {
            Some(trim(raw@))
        } else {
            None
        },
{
    let rc = chars_of(raw);
    let t = trimmed(rc.as_slice());
    if t.len() > 0 {
        Some(string_of(t))
    } else {
        None
    }
}

/// The source of a note's facts.
pub fn note_source(title: &str) -> (r: String)
    ensures
        r@ == "note:"@ + slug(title@),
{
    let mut s = chars_of("note:");
    let sl = slugify(title);
    push_text(&mut s, sl.as_str());
    string_of(s.as_slice())
}

/// What the user is told of the facts.
pub open spec fn fact_lines(facts: Seq<Seq<char>>) -> Seq<Seq<char>> {
    Seq::new(facts.len(), |i: int| "  - "@ + facts[i])
}

/// What the user is told once a note is filed.
pub open spec fn filed_lines(c: ClassView) -> Seq<Seq<char>> {
    seq![
        "filed "@ + dec(c.facts.len() as int) + " "@ + (if c.facts.len() == 1 {
            "memory"@
        } else {
            "memories"@
        }) + " under \""@ + c.topic + "\""@,
        "  refer to it as: \""@ + c.title + "\""@,
    ] + fact_lines(c.facts)
}

/// What the user is told once a note is filed.
pub fn filed_report(c: &Classification) -> (r: Vec<String>)
    ensures
        texts(r@) == filed_lines(c@),
{
    let mut out: Vec<String> = Vec::new();
    assert(c@.facts.len() == c.facts@.len());
    let mut first = chars_of("filed ");
    push_usize(&mut first, c.facts.len());
    push_text(&mut first, " ");
    if c.facts.len() == 1 {
        push_text(&mut first, "memory");
    } else {
        push_text(&mut first, "memories");
    }
    push_text(&mut first, " under \"");
    push_text(&mut first, c.topic.as_str());
    push_text(&mut first, "\"");
    out.push(string_of(first.as_slice()));
    let mut second = chars_of("  refer to it as: \"");
    push_text(&mut second, c.title.as_str());
    push_text(&mut second, "\"");
    out.push(string_of(second.as_slice()));
    let ghost base = texts(out@);
    assert(base =~= seq![first@, second@]);
    let ghost fv = c@.facts;
    let mut i: usize = 0;
    assert(texts(out@) =~= base + fact_lines(fv.take(0)));
    while i < c.facts.len()
        invariant
            i <= c.facts@.len(),
            fv == texts(c.facts@),
            texts(out@) == base + fact_lines(fv.take(i as int)),
        decreases c.facts@.len() - i,
    {
        let mut l = chars_of("  - ");
        push_text(&mut l, c.facts[i].as_str());
        let line = string_of(l.as_slice());
        proof {
            lemma_texts_push(out@, line);
            assert(fact_lines(fv.take(i + 1)) =~= fact_lines(fv.take(i as int)).push("  - "@ + fv[i as int]));
        }
        out.push(line);
        i = i + 1;
        assert(texts(out@) =~= base + fact_lines(fv.take(i as int)));
    }
    assert(fv.take(i as int) =~= fv);
    out
}

} // verus!
