//! Laws of notes: what a reply says of a note is kept, and so is the note.

use vstd::prelude::*;

use crate::code_index::scope::lemma_trim_noop;
use crate::export::{framed, is_one_line, law_export_reads_back};
use crate::laws::text::{
    all_space, is_bare, is_word, law_trim_of_padded, law_words_of_joined_words, lemma_concat_front,
    lemma_stands_between,
};
use crate::letters::{ascii_lower, ascii_lower_all, is_ascii_alnum, starts_with_letters};
use crate::note::{
    alnum_len, alnum_runs, classified, filed_lines, first_words, importance_of, labelled, note_args, note_prompt,
    read_note, read_note_line, slug, ArgsView, ClassView, NoteReading, NOTE_PROMPT_HEAD, NOTE_PROMPT_RULES,
    NOTE_PROMPT_TAIL,
};
use crate::numeral::{dec, law_numeral_reads_back};
use crate::text::{concat, contains, is_space, join, lines, starts_with, trim};

verus! {

// --- the reply ---

/// Whether a text can stand behind a label.
pub open spec fn is_given(s: Seq<char>) -> bool {
    s.len() > 0 && is_bare(s) && !s.contains('\n')
}

proof fn lemma_label(label: Seq<char>, s: Seq<char>)
    requires
        is_given(s),
        label.len() > 0,
        !is_space(label[0]),
        !label.contains('\n'),
    ensures
        labelled(label + " "@ + s, label) == Some(s),
        trim(label + " "@ + s) == label + " "@ + s,
        is_one_line(label + " "@ + s),
{
    reveal_strlit(" ");
    let line = label + " "@ + s;
    let n = label.len() as int;
    assert(line[0] == label[0]);
    assert(line.last() == s.last());
    lemma_trim_noop(line);
    assert(line.take(n) =~= label);
    let sp = seq![' '];
    let none: Seq<char> = Seq::empty();
    assert(all_space(sp));
    assert(line.skip(n) =~= sp + s + none);
    law_trim_of_padded(sp, s, none);
    assert forall|j: int| 0 <= j < line.len() implies line[j] != '\n' by {
        if j < n {
            assert(line[j] == label[j]);
            assert(label.contains(label[j]));
        } else if j > n {
            assert(line[j] == s[j - n - 1]);
            assert(s.contains(s[j - n - 1]));
        }
    }
}

proof fn lemma_not_label(label: Seq<char>, rest: Seq<char>, other: Seq<char>, k: int)
    requires
        0 <= k < label.len(),
        k < other.len(),
        ascii_lower(label[k]) != ascii_lower(other[k]),
        trim(label + rest) == label + rest,
    ensures
        labelled(label + rest, other) is None,
{
    let s = label + rest;
    if starts_with_letters(s, other) {
        let h = s.take(other.len() as int);
        assert(ascii_lower_all(h)[k] == ascii_lower(h[k]));
        assert(ascii_lower_all(other)[k] == ascii_lower(other[k]));
        assert(h[k] == label[k]);
    }
}

proof fn lemma_note_lines(st: NoteReading, s: Seq<char>)
    requires
        is_given(s),
    ensures
        is_one_line("TOPIC:"@ + " "@ + s),
        is_one_line("TITLE:"@ + " "@ + s),
        is_one_line("FACT:"@ + " "@ + s),
        read_note_line(st, "TOPIC:"@ + " "@ + s) == (NoteReading {
            topic: if st.topic is None { Some(s) } else { st.topic },
            ..st
        }),
        read_note_line(st, "TITLE:"@ + " "@ + s) == (NoteReading {
            title: if st.title is None { Some(s) } else { st.title },
            ..st
        }),
        read_note_line(st, "FACT:"@ + " "@ + s) == (NoteReading { facts: st.facts.push(s), ..st }),
{
    reveal_strlit("TOPIC:");
    reveal_strlit("TITLE:");
    reveal_strlit("FACT:");
    lemma_label("TOPIC:"@, s);
    lemma_label("TITLE:"@, s);
    lemma_label("FACT:"@, s);
    let r = " "@ + s;
    assert("TITLE:"@ + " "@ + s =~= "TITLE:"@ + r);
    assert("FACT:"@ + " "@ + s =~= "FACT:"@ + r);
    lemma_not_label("TITLE:"@, r, "TOPIC:"@, 1);
    lemma_not_label("FACT:"@, r, "TOPIC:"@, 0);
    lemma_not_label("FACT:"@, r, "TITLE:"@, 0);
}

/// The lines of a reply in the form that the prompt asks for.
pub open spec fn reply_lines(topic: Seq<char>, title: Seq<char>, facts: Seq<Seq<char>>) -> Seq<Seq<char>> {
    seq!["TOPIC:"@ + " "@ + topic, "TITLE:"@ + " "@ + title] + facts.map_values(|f: Seq<char>| "FACT:"@ + " "@ + f)
}

proof fn lemma_facts_read(b: Seq<Seq<char>>, facts: Seq<Seq<char>>)
    requires
        forall|i: int| 0 <= i < facts.len() ==> is_given(#[trigger] facts[i]),
    ensures
        read_note(b + facts.map_values(|f: Seq<char>| "FACT:"@ + " "@ + f)) == (NoteReading {
            facts: read_note(b).facts + facts,
            ..read_note(b)
        }),
    decreases facts.len(),
{
    let ls = facts.map_values(|f: Seq<char>| "FACT:"@ + " "@ + f);
    if facts.len() == 0 {
        assert(b + ls =~= b);
        assert(read_note(b).facts + facts =~= read_note(b).facts);
    } else {
        let d = facts.drop_last();
        assert forall|i: int| 0 <= i < d.len() implies is_given(#[trigger] d[i]) by {
            assert(d[i] == facts[i]);
        }
        lemma_facts_read(b, d);
        let dl = d.map_values(|f: Seq<char>| "FACT:"@ + " "@ + f);
        assert((b + ls).drop_last() =~= b + dl);
        let f = facts[facts.len() - 1];
        assert(is_given(f));
        assert((b + ls).last() == "FACT:"@ + " "@ + f);
        lemma_note_lines(read_note(b + dl), f);
        assert((read_note(b).facts + d).push(f) =~= read_note(b).facts + facts);
    }
}

/// A reply in the form that the prompt asks for is kept whole: its topic, its
/// title and every fact in order.
pub proof fn law_note_reply_reads_back(topic: Seq<char>, title: Seq<char>, facts: Seq<Seq<char>>, note: Seq<char>)
    requires
        is_given(topic),
        is_given(title),
        facts.len() > 0,
        forall|i: int| 0 <= i < facts.len() ==> is_given(#[trigger] facts[i]),
    ensures
        classified(framed(reply_lines(topic, title, facts)), note) == (ClassView { topic, title, facts }),
{
    let ls = reply_lines(topic, title, facts);
    let l1 = "TOPIC:"@ + " "@ + topic;
    let l2 = "TITLE:"@ + " "@ + title;
    let start = read_note(Seq::empty());
    lemma_note_lines(start, topic);
    let b1 = seq![l1];
    assert(b1.drop_last() =~= Seq::empty());
    lemma_note_lines(read_note(b1), title);
    let b2 = seq![l1, l2];
    assert(b2.drop_last() =~= b1);
    lemma_facts_read(b2, facts);
    assert(read_note(b2).facts + facts =~= facts);
    assert forall|i: int| 0 <= i < ls.len() implies is_one_line(#[trigger] ls[i]) by {
        if i >= 2 {
            assert(is_given(facts[i - 2]));
            lemma_note_lines(start, facts[i - 2]);
        }
    }
    law_export_reads_back(ls);
}

/// The first topic and the first title stand, whatever comes later.
pub proof fn law_first_topic_and_title_stand(st: NoteReading, s: Seq<char>)
    requires
        is_given(s),
    ensures
        st.topic is Some ==> read_note_line(st, "TOPIC: "@ + s).topic == st.topic,
        st.title is Some ==> read_note_line(st, "TITLE: "@ + s).title == st.title,
        st.topic is None ==> read_note_line(st, "TOPIC: "@ + s).topic == Some(s),
        st.title is None ==> read_note_line(st, "TITLE: "@ + s).title == Some(s),
{
    reveal_strlit("TOPIC: ");
    reveal_strlit("TITLE: ");
    reveal_strlit("TOPIC:");
    reveal_strlit("TITLE:");
    reveal_strlit(" ");
    assert("TOPIC: "@ + s =~= "TOPIC:"@ + " "@ + s);
    assert("TITLE: "@ + s =~= "TITLE:"@ + " "@ + s);
    lemma_note_lines(st, s);
}

/// Where a reply lacks a topic, a title or a fact, the note itself is kept,
/// under its first six words.
pub proof fn law_note_is_kept_itself(reply: Seq<char>, ws: Seq<Seq<char>>)
    requires
        ws.len() > 0,
        forall|i: int| 0 <= i < ws.len() ==> is_word(#[trigger] ws[i]),
        read_note(lines(reply)).topic is None || read_note(lines(reply)).title is None || read_note(lines(reply)).facts.len() == 0,
    ensures
        classified(reply, join(ws, " "@)).topic == "notes"@,
        classified(reply, join(ws, " "@)).title == join(ws.take(if ws.len() < 6 { ws.len() as int } else { 6 }), " "@),
        classified(reply, join(ws, " "@)).facts == seq![join(ws, " "@)],
{
    let note = join(ws, " "@);
    crate::laws::summary::lemma_joined_words(ws);
    lemma_trim_noop(note);
    law_words_of_joined_words(ws);
    let k = if ws.len() < 6 { ws.len() as int } else { 6 };
    if ws.len() <= 6 {
        assert(ws.take(ws.len() as int) =~= ws);
    }
    assert(first_words(note) == join(ws.take(k), " "@));
    let f = ws.take(k);
    assert forall|i: int| 0 <= i < f.len() implies is_word(#[trigger] f[i]) by {
        assert(f[i] == ws[i]);
    }
    crate::laws::summary::lemma_joined_words(f);
}

/// The prompt holds the day, every topic that exists, and the whole note.
pub proof fn law_note_prompt_holds_the_note(note: Seq<char>, topics: Seq<Seq<char>>, today: Seq<char>)
    ensures
        contains(note_prompt(note, topics, today), "Note:\n"@ + note),
        contains(note_prompt(note, topics, today), today),
        topics.len() > 0 ==> contains(note_prompt(note, topics, today), "Existing topics: "@ + join(topics, ", "@) + "\n\n"@),
{
    let tb = crate::note::topics_block(topics);
    let all = note_prompt(note, topics, today);
    let n = "Note:\n"@ + note;
    assert(all =~= (NOTE_PROMPT_HEAD@ + today + NOTE_PROMPT_RULES@ + tb) + n + NOTE_PROMPT_TAIL@);
    lemma_stands_between(NOTE_PROMPT_HEAD@ + today + NOTE_PROMPT_RULES@ + tb, n, NOTE_PROMPT_TAIL@);
    assert(all =~= NOTE_PROMPT_HEAD@ + today + (NOTE_PROMPT_RULES@ + tb + n + NOTE_PROMPT_TAIL@));
    lemma_stands_between(NOTE_PROMPT_HEAD@, today, NOTE_PROMPT_RULES@ + tb + n + NOTE_PROMPT_TAIL@);
    assert(all =~= (NOTE_PROMPT_HEAD@ + today + NOTE_PROMPT_RULES@) + tb + (n + NOTE_PROMPT_TAIL@));
    lemma_stands_between(NOTE_PROMPT_HEAD@ + today + NOTE_PROMPT_RULES@, tb, n + NOTE_PROMPT_TAIL@);
}

// --- the slug ---

/// The runs of a slug hold every letter and digit of the text, made small, in
/// order.
pub proof fn law_slug_keeps_letters_and_digits(s: Seq<char>)
    ensures
        concat(alnum_runs(s)) == ascii_lower_all(s.filter(|c: char| is_ascii_alnum(c))),
        alnum_runs(s).len() > 0 ==> slug(s) == join(alnum_runs(s), "-"@),
        alnum_runs(s).len() == 0 ==> slug(s) == "note"@,
{
    lemma_runs_hold(s);
}

proof fn lemma_alnum_len(s: Seq<char>)
    ensures
        0 <= alnum_len(s) <= s.len(),
        s.len() > 0 && is_ascii_alnum(s[0]) ==> alnum_len(s) > 0,
        forall|j: int| 0 <= j < alnum_len(s) ==> is_ascii_alnum(#[trigger] s[j]),
    decreases s.len(),
{
    if s.len() > 0 && is_ascii_alnum(s[0]) {
        let t = s.drop_first();
        lemma_alnum_len(t);
        assert forall|j: int| 0 <= j < alnum_len(s) implies is_ascii_alnum(#[trigger] s[j]) by {
            if j > 0 {
                assert(t[j - 1] == s[j]);
            }
        }
    }
}

proof fn lemma_runs_hold(s: Seq<char>)
    ensures
        concat(alnum_runs(s)) == ascii_lower_all(s.filter(|c: char| is_ascii_alnum(c))),
    decreases s.len(),
{
    let keep = |c: char| is_ascii_alnum(c);
    if s.len() == 0 {
        reveal(Seq::filter);
        assert(concat(alnum_runs(s)) =~= ascii_lower_all(s.filter(keep)));
    } else if !is_ascii_alnum(s[0]) {
        let d = s.drop_first();
        lemma_runs_hold(d);
        assert(s =~= seq![s[0]] + d);
        Seq::filter_distributes_over_add(seq![s[0]], d, keep);
        crate::laws::text::lemma_filter_none(seq![s[0]], keep);
        assert(s.filter(keep) =~= d.filter(keep));
    } else {
        let k = alnum_len(s);
        lemma_alnum_len(s);
        let w = s.take(k);
        let rest = s.skip(k);
        lemma_runs_hold(rest);
        assert(s =~= w + rest);
        Seq::filter_distributes_over_add(w, rest, keep);
        assert forall|j: int| 0 <= j < w.len() implies keep(#[trigger] w[j]) by {
            assert(w[j] == s[j]);
        }
        crate::laws::text::lemma_filter_all(w, keep);
        lemma_concat_front(ascii_lower_all(w), alnum_runs(rest));
        assert(ascii_lower_all(w + rest.filter(keep)) =~= ascii_lower_all(w) + ascii_lower_all(rest.filter(keep)));
    }
}

// --- the arguments ---

/// An importance is what the argument says, between 1 and 10.
pub proof fn law_importance_is_clamped(n: i64)
    ensures
        1 <= n <= 10 ==> importance_of(dec(n as int)) == n,
        n < 1 ==> importance_of(dec(n as int)) == 1,
        n > 10 ==> importance_of(dec(n as int)) == 10,
{
    law_numeral_reads_back(n as int);
}

/// The text and the importance may come in either order, with the short or the
/// long word; without one the importance is 6.
pub proof fn law_note_arguments(text: Seq<char>, n: i64)
    requires
        1 <= n <= 10,
        text != "-i"@ && text != "--importance"@ && text != "-h"@ && text != "--help"@,
    ensures
        note_args(seq![text], None, 6) == ArgsView::Note(Some(text), 6),
        note_args(Seq::empty(), None, 6) == ArgsView::Note(None, 6),
        note_args(seq!["-i"@, dec(n as int), text], None, 6) == ArgsView::Note(Some(text), n as int),
        note_args(seq![text, "-i"@, dec(n as int)], None, 6) == ArgsView::Note(Some(text), n as int),
        note_args(seq!["--importance"@, dec(n as int), text], None, 6) == ArgsView::Note(Some(text), n as int),
        note_args(seq![text, "--importance"@, dec(n as int)], None, 6) == ArgsView::Note(Some(text), n as int),
        note_args(seq![text, text], None, 6) == ArgsView::Unexpected(text),
        note_args(seq![text, "--help"@], None, 6) == ArgsView::Help,
        note_args(seq!["-h"@, text], None, 6) == ArgsView::Help,
{
    reveal_strlit("-i");
    reveal_strlit("--importance");
    reveal_strlit("-h");
    reveal_strlit("--help");
    let i = "-i"@;
    let im = "--importance"@;
    let h = "-h"@;
    let he = "--help"@;
    let d = dec(n as int);
    assert(i.len() == 2 && im.len() == 12 && h.len() == 2 && he.len() == 6);
    assert(i[1] == 'i' && h[1] == 'h');
    law_importance_is_clamped(n);
    let none: Seq<Seq<char>> = Seq::empty();
    assert(note_args(none, Some(text), 6) == ArgsView::Note(Some(text), 6));
    assert(note_args(none, Some(text), n as int) == ArgsView::Note(Some(text), n as int));
    let one = seq![text];
    assert(one.skip(1) =~= none);
    assert(note_args(one, None, 6) == ArgsView::Note(Some(text), 6));
    assert(note_args(one, None, n as int) == ArgsView::Note(Some(text), n as int));
    assert(seq![i, d, text].skip(2) =~= one);
    assert(seq![im, d, text].skip(2) =~= one);
    let si = seq![i, d];
    let sm = seq![im, d];
    assert(si.skip(2) =~= none);
    assert(sm.skip(2) =~= none);
    assert(note_args(si, Some(text), 6) == ArgsView::Note(Some(text), n as int));
    assert(note_args(sm, Some(text), 6) == ArgsView::Note(Some(text), n as int));
    assert(seq![text, i, d].skip(1) =~= si);
    assert(seq![text, im, d].skip(1) =~= sm);
    assert(seq![text, text].skip(1) =~= one);
    assert(note_args(one, Some(text), 6) == ArgsView::Unexpected(text));
    let sh = seq![he];
    assert(note_args(sh, Some(text), 6) == ArgsView::Help);
    assert(seq![text, he].skip(1) =~= sh);
}

/// The report of a note that was filed says how many memories there are and
/// under which topic, and shows the title and every fact.
pub proof fn law_report_shows_every_fact(c: ClassView)
    ensures
        filed_lines(c).len() == c.facts.len() + 2,
        starts_with(filed_lines(c)[0], "filed "@ + dec(c.facts.len() as int) + " "@),
        contains(filed_lines(c)[0], "\""@ + c.topic + "\""@),
        contains(filed_lines(c)[1], "\""@ + c.title + "\""@),
        forall|i: int| 0 <= i < c.facts.len() ==> filed_lines(c)[2 + i] == "  - "@ + #[trigger] c.facts[i],
{
    let l0 = filed_lines(c)[0];
    let l1 = filed_lines(c)[1];
    reveal_strlit(" under \"");
    reveal_strlit("\"");
    reveal_strlit(" under ");
    reveal_strlit("  refer to it as: \"");
    reveal_strlit("  refer to it as: ");
    let word = if c.facts.len() == 1 {
        "memory"@
    } else {
        "memories"@
    };
    let h = "filed "@ + dec(c.facts.len() as int) + " "@;
    let none: Seq<char> = Seq::empty();
    assert(l0.take(h.len() as int) =~= h);
    let q = "\""@ + c.topic + "\""@;
    assert(l0 =~= (h + word + " under "@) + q + none);
    lemma_stands_between(h + word + " under "@, q, none);
    let r = "\""@ + c.title + "\""@;
    assert(l1 =~= "  refer to it as: "@ + r + none);
    lemma_stands_between("  refer to it as: "@, r, none);
}

} // verus!
