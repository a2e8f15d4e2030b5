//! Laws of ingested sessions: the verdicts and facts of a reply, and the ids
//! of a recall log.

use vstd::prelude::*;

use crate::export::{framed, is_one_line, law_export_reads_back};
use crate::ingest::{
    all_shown, covers, facts, flat_ids, integers, line_ids, log_ids, memory_lines, reply_verdicts, verdict_line,
    verdict_token, verdicts, EngagementVerdict,
};
use crate::json::Json;
use crate::laws::prompt::lemma_concat_holds;
use crate::laws::text::{is_word, law_words_of_joined_words};
use crate::letters::uppers_to;
use crate::numeral::{dec, dec_nat, is_digit, law_numeral_reads_back, lemma_dec_nat};
use crate::text::{concat, contains, is_space, join, lines, trim, trim_start_of};

verus! {

// --- verdicts ---

/// The word for a verdict.
pub open spec fn verdict_word(v: EngagementVerdict) -> Seq<char> {
    match v {
        EngagementVerdict::Engaged => "ENGAGED"@,
        EngagementVerdict::Shown => "SHOWN"@,
    }
}

/// The line that states a verdict on a memory.
pub open spec fn stated(p: (i64, EngagementVerdict)) -> Seq<char> {
    dec(p.0 as int) + " "@ + verdict_word(p.1)
}

proof fn lemma_dec_is_word(n: int)
    ensures
        is_word(dec(n)),
        dec(n)[0] != '#',
{
    if n < 0 {
        let m = (-n) as nat;
        lemma_dec_nat(m);
        let d = dec_nat(m);
        assert forall|i: int| 0 <= i < dec(n).len() implies !is_space(#[trigger] dec(n)[i]) by {
            if i > 0 {
                assert(dec(n)[i] == d[i - 1]);
                assert(is_digit(d[i - 1]));
            }
        }
    } else {
        lemma_dec_nat(n as nat);
        let d = dec_nat(n as nat);
        assert forall|i: int| 0 <= i < dec(n).len() implies !is_space(#[trigger] dec(n)[i]) by {
            assert(is_digit(d[i]));
        }
        assert(is_digit(d[0]));
    }
}

proof fn lemma_verdict_word(v: EngagementVerdict)
    ensures
        is_word(verdict_word(v)),
        verdict_token(verdict_word(v)) == Some(v),
{
    reveal_strlit("ENGAGED");
    reveal_strlit("SHOWN");
    let e = "ENGAGED"@;
    let s = "SHOWN"@;
    assert(e.len() == 7 && s.len() == 5);
    assert(uppers_to(e, e));
    assert(uppers_to(s, s));
}

/// A line of an id, with or without a hash, and a verdict states that verdict
/// on that id.
pub proof fn law_verdict_line_reads_back(id: i64, v: EngagementVerdict)
    ensures
        verdict_line(dec(id as int) + " "@ + verdict_word(v)) == Some((id, v)),
        verdict_line("#"@ + dec(id as int) + " "@ + verdict_word(v)) == Some((id, v)),
        is_one_line(dec(id as int) + " "@ + verdict_word(v)),
{
    let d = dec(id as int);
    let w = verdict_word(v);
    reveal_strlit("#");
    reveal_strlit(" ");
    lemma_dec_is_word(id as int);
    lemma_verdict_word(v);
    law_numeral_reads_back(id as int);
    let a = seq![d, w];
    assert(a.drop_last() =~= seq![d]);
    assert(join(seq![d], " "@) == d);
    assert(join(a, " "@) =~= d + " "@ + w);
    law_words_of_joined_words(a);
    assert(trim_start_of(d, '#', '#') == d);
    let hd = "#"@ + d;
    assert(is_word(hd)) by {
        assert forall|i: int| 0 <= i < hd.len() implies !is_space(#[trigger] hd[i]) by {
            if i > 0 {
                assert(hd[i] == d[i - 1]);
            }
        }
    }
    let b = seq![hd, w];
    assert(b.drop_last() =~= seq![hd]);
    assert(join(seq![hd], " "@) == hd);
    assert(join(b, " "@) =~= hd + " "@ + w);
    law_words_of_joined_words(b);
    assert(hd.drop_first() =~= d);
    assert(hd[0] == '#');
    assert(trim_start_of(hd, '#', '#') == d);
    let line = d + " "@ + w;
    assert forall|j: int| 0 <= j < line.len() implies line[j] != '\n' by {
        if j < d.len() {
            assert(line[j] == d[j]);
        } else if j > d.len() {
            assert(line[j] == w[j - d.len() - 1]);
        }
    }
    assert(line.last() == w[w.len() - 1]);
}

/// The verdicts by id.
pub open spec fn by_id(ps: Seq<(i64, EngagementVerdict)>) -> Map<i64, EngagementVerdict>
    decreases ps.len(),
{
    if ps.len() == 0 {
        Map::empty()
    } else {
        by_id(ps.drop_last()).insert(ps.last().0, ps.last().1)
    }
}

proof fn lemma_by_id(ps: Seq<(i64, EngagementVerdict)>, id: i64)
    ensures
        by_id(ps).contains_key(id) <==> exists|i: int| 0 <= i < ps.len() && (#[trigger] ps[i]).0 == id,
        by_id(ps).contains_key(id) ==> exists|i: int| 0 <= i < ps.len() && (#[trigger] ps[i]).0 == id && ps[i].1 == by_id(ps)[id],
    decreases ps.len(),
{
    if ps.len() > 0 {
        let d = ps.drop_last();
        lemma_by_id(d, id);
        assert(ps[ps.len() - 1] == ps.last());
        if by_id(d).contains_key(id) {
            let i = choose|i: int| 0 <= i < d.len() && (#[trigger] d[i]).0 == id && d[i].1 == by_id(d)[id];
            assert(ps[i] == d[i]);
        }
        if exists|i: int| 0 <= i < ps.len() && (#[trigger] ps[i]).0 == id {
            let i = choose|i: int| 0 <= i < ps.len() && (#[trigger] ps[i]).0 == id;
            if i < d.len() {
                assert(d[i] == ps[i]);
            }
        }
    }
}

proof fn lemma_verdicts_read(ps: Seq<(i64, EngagementVerdict)>, known: Seq<i64>)
    requires
        forall|i: int| 0 <= i < ps.len() ==> known.contains((#[trigger] ps[i]).0),
        forall|i: int, j: int| 0 <= i < j < ps.len() && (#[trigger] ps[i]).0 == (#[trigger] ps[j]).0 ==> ps[i].1 == ps[j].1,
    ensures
        verdicts(ps.map_values(|p: (i64, EngagementVerdict)| stated(p)), known) == Some(by_id(ps)),
    decreases ps.len(),
{
    let ls = ps.map_values(|p: (i64, EngagementVerdict)| stated(p));
    if ps.len() > 0 {
        let d = ps.drop_last();
        assert forall|i: int| 0 <= i < d.len() implies known.contains((#[trigger] d[i]).0) by {
            assert(d[i] == ps[i]);
        }
        assert forall|i: int, j: int| 0 <= i < j < d.len() && (#[trigger] d[i]).0 == (#[trigger] d[j]).0 implies d[i].1 == d[j].1 by {
            assert(d[i] == ps[i] && d[j] == ps[j]);
        }
        lemma_verdicts_read(d, known);
        assert(ls.drop_last() =~= d.map_values(|p: (i64, EngagementVerdict)| stated(p)));
        let p = ps[ps.len() - 1];
        law_verdict_line_reads_back(p.0, p.1);
        lemma_by_id(d, p.0);
        if by_id(d).contains_key(p.0) {
            let i = choose|i: int| 0 <= i < d.len() && (#[trigger] d[i]).0 == p.0 && d[i].1 == by_id(d)[p.0];
            assert(ps[i] == d[i]);
        }
    }
}

/// A reply that states a verdict on every memory, and no two on one, is taken
/// as it stands.
pub proof fn law_full_reply_is_taken(ps: Seq<(i64, EngagementVerdict)>, known: Seq<i64>)
    requires
        forall|i: int| 0 <= i < ps.len() ==> known.contains((#[trigger] ps[i]).0),
        forall|i: int, j: int| 0 <= i < j < ps.len() && (#[trigger] ps[i]).0 == (#[trigger] ps[j]).0 ==> ps[i].1 == ps[j].1,
        forall|k: int| 0 <= k < known.len() ==> exists|i: int| 0 <= i < ps.len() && (#[trigger] ps[i]).0 == #[trigger] known[k],
    ensures
        forall|i: int|
            0 <= i < ps.len() ==> reply_verdicts(
                framed(ps.map_values(|p: (i64, EngagementVerdict)| stated(p))),
                known,
            ).contains_key((#[trigger] ps[i]).0) && reply_verdicts(
                framed(ps.map_values(|p: (i64, EngagementVerdict)| stated(p))),
                known,
            )[ps[i].0] == ps[i].1,
{
    let ls = ps.map_values(|p: (i64, EngagementVerdict)| stated(p));
    assert forall|i: int| 0 <= i < ls.len() implies is_one_line(#[trigger] ls[i]) by {
        law_verdict_line_reads_back(ps[i].0, ps[i].1);
    }
    law_export_reads_back(ls);
    lemma_verdicts_read(ps, known);
    let m = by_id(ps);
    assert(covers(m, known)) by {
        assert forall|k: int| 0 <= k < known.len() implies m.contains_key(#[trigger] known[k]) by {
            lemma_by_id(ps, known[k]);
        }
    }
    assert forall|i: int| 0 <= i < ps.len() implies m.contains_key((#[trigger] ps[i]).0) && m[ps[i].0] == ps[i].1 by {
        lemma_by_id(ps, ps[i].0);
        let j = choose|j: int| 0 <= j < ps.len() && (#[trigger] ps[j]).0 == ps[i].0 && ps[j].1 == m[ps[i].0];
        if i < j {
            assert(ps[i].0 == ps[j].0);
        } else if j < i {
            assert(ps[j].0 == ps[i].0);
        }
    }
}

proof fn lemma_refused(ls: Seq<Seq<char>>, known: Seq<i64>, i: int)
    requires
        0 <= i < ls.len(),
        verdict_line(ls[i]) is Some,
        !known.contains((verdict_line(ls[i])->0).0),
    ensures
        verdicts(ls, known) is None,
    decreases ls.len(),
{
    if i < ls.len() - 1 {
        assert(ls.drop_last()[i] == ls[i]);
        lemma_refused(ls.drop_last(), known, i);
    }
}

proof fn lemma_unstated(ls: Seq<Seq<char>>, known: Seq<i64>, id: i64)
    requires
        forall|i: int| 0 <= i < ls.len() ==> !(verdict_line(#[trigger] ls[i]) is Some && (verdict_line(ls[i])->0).0 == id),
    ensures
        verdicts(ls, known) is Some ==> !(verdicts(ls, known)->0).contains_key(id),
    decreases ls.len(),
{
    if ls.len() > 0 {
        let d = ls.drop_last();
        assert forall|i: int| 0 <= i < d.len() implies !(verdict_line(#[trigger] d[i]) is Some && (verdict_line(d[i])->0).0 == id) by {
            assert(d[i] == ls[i]);
        }
        lemma_unstated(d, known, id);
        assert(ls[ls.len() - 1] == ls.last());
    }
}

/// A reply that names an unknown memory, or says nothing of a known one, is
/// not believed: every memory counts as shown.
pub proof fn law_doubtful_reply_is_not_believed(reply: Seq<char>, known: Seq<i64>, i: int)
    ensures
        0 <= i < lines(reply).len() && verdict_line(lines(reply)[i]) is Some && !known.contains(
            (verdict_line(lines(reply)[i])->0).0,
        ) ==> reply_verdicts(reply, known) == all_shown(known),
        0 <= i < known.len() && (forall|k: int|
            0 <= k < lines(reply).len() ==> !(verdict_line(#[trigger] lines(reply)[k]) is Some && (verdict_line(
                lines(reply)[k],
            )->0).0 == known[i])) ==> reply_verdicts(reply, known) == all_shown(known),
        forall|k: int|
            0 <= k < known.len() ==> all_shown(known).contains_key(#[trigger] known[k]) && all_shown(known)[known[k]]
                == EngagementVerdict::Shown,
{
    let ls = lines(reply);
    if 0 <= i < ls.len() && verdict_line(ls[i]) is Some && !known.contains((verdict_line(ls[i])->0).0) {
        lemma_refused(ls, known, i);
    }
    if 0 <= i < known.len() && (forall|k: int|
        0 <= k < ls.len() ==> !(verdict_line(#[trigger] ls[k]) is Some && (verdict_line(ls[k])->0).0 == known[i])) {
        lemma_unstated(ls, known, known[i]);
    }
}

// --- facts ---

/// The facts of a digest are its lines that are not blank, without the white
/// space around them, all of them and in order.
pub proof fn law_every_line_is_a_fact(ls: Seq<Seq<char>>)
    ensures
        facts(ls) == ls.map_values(|l: Seq<char>| trim(l)).filter(|l: Seq<char>| l.len() > 0),
    decreases ls.len(),
{
    reveal(Seq::filter);
    let t = ls.map_values(|l: Seq<char>| trim(l));
    if ls.len() > 0 {
        law_every_line_is_a_fact(ls.drop_last());
        assert(t.drop_last() =~= ls.drop_last().map_values(|l: Seq<char>| trim(l)));
    } else {
        assert(facts(ls) =~= t.filter(|l: Seq<char>| l.len() > 0));
    }
}

// --- the prompt ---

/// The engagement prompt lists every memory by its id.
pub proof fn law_every_memory_is_asked_about(memories: Seq<(i64, String)>, i: int)
    requires
        0 <= i < memories.len(),
    ensures
        contains(memory_lines(memories), dec(memories[i].0 as int) + ": "@ + memories[i].1@ + "\n"@),
{
    lemma_memory_lines(memories);
    let ps = memories.map_values(|m: (i64, String)| dec(m.0 as int) + ": "@ + m.1@ + "\n"@);
    lemma_concat_holds(ps, i);
}

proof fn lemma_memory_lines(memories: Seq<(i64, String)>)
    ensures
        memory_lines(memories) == concat(
            memories.map_values(|m: (i64, String)| dec(m.0 as int) + ": "@ + m.1@ + "\n"@),
        ),
    decreases memories.len(),
{
    let ps = memories.map_values(|m: (i64, String)| dec(m.0 as int) + ": "@ + m.1@ + "\n"@);
    if memories.len() > 0 {
        lemma_memory_lines(memories.drop_last());
        assert(ps.drop_last() =~= memories.drop_last().map_values(
            |m: (i64, String)| dec(m.0 as int) + ": "@ + m.1@ + "\n"@,
        ));
        assert(memory_lines(memories) =~= concat(ps));
    }
}

// --- recall logs ---

proof fn lemma_in_sum(a: Seq<i64>, b: Seq<i64>, n: i64)
    ensures
        (a + b).contains(n) <==> a.contains(n) || b.contains(n),
{
    let all = a + b;
    if a.contains(n) {
        let i = choose|i: int| 0 <= i < a.len() && a[i] == n;
        assert(all[i] == n);
    }
    if b.contains(n) {
        let i = choose|i: int| 0 <= i < b.len() && b[i] == n;
        assert(all[a.len() + i] == n);
    }
    if all.contains(n) {
        let i = choose|i: int| 0 <= i < all.len() && all[i] == n;
        if i < a.len() {
            assert(a[i] == n);
        } else {
            assert(b[i - a.len()] == n);
        }
    }
}

/// A recall log recalls exactly the ids on its lines.
pub proof fn law_log_recalls_every_line(ls: Seq<Seq<char>>, n: i64)
    ensures
        log_ids(ls).contains(n) <==> exists|i: int| 0 <= i < ls.len() && line_ids(#[trigger] ls[i]).contains(n),
    decreases ls.len(),
{
    if ls.len() > 0 {
        let d = ls.drop_last();
        law_log_recalls_every_line(d, n);
        lemma_in_sum(log_ids(d), line_ids(ls.last()), n);
        assert(ls[ls.len() - 1] == ls.last());
        if log_ids(d).contains(n) {
            let i = choose|i: int| 0 <= i < d.len() && line_ids(#[trigger] d[i]).contains(n);
            assert(ls[i] == d[i]);
        }
        if exists|i: int| 0 <= i < ls.len() && line_ids(#[trigger] ls[i]).contains(n) {
            let i = choose|i: int| 0 <= i < ls.len() && line_ids(#[trigger] ls[i]).contains(n);
            if i < d.len() {
                assert(d[i] == ls[i]);
            }
        }
    }
}

/// The ids of an entry are the integers of its list, all of them.
pub proof fn law_entry_has_every_integer(items: Seq<Json>, n: i64)
    ensures
        integers(items).contains(n) <==> exists|i: int| 0 <= i < items.len() && #[trigger] items[i] == Json::Number(Some(n)),
    decreases items.len(),
{
    if items.len() > 0 {
        let d = items.drop_last();
        let rest = integers(d);
        let all = integers(items);
        law_entry_has_every_integer(d, n);
        assert(items[items.len() - 1] == items.last());
        if rest.contains(n) {
            let k = choose|k: int| 0 <= k < rest.len() && rest[k] == n;
            assert(all[k] == n);
            let i = choose|i: int| 0 <= i < d.len() && #[trigger] d[i] == Json::Number(Some(n));
            assert(items[i] == d[i]);
        }
        if items.last() == Json::Number(Some(n)) {
            assert(all[rest.len() as int] == n);
        }
        if all.contains(n) && !rest.contains(n) {
            let k = choose|k: int| 0 <= k < all.len() && all[k] == n;
            if k < rest.len() {
                assert(rest[k] == n);
            }
        }
        if exists|i: int| 0 <= i < items.len() && #[trigger] items[i] == Json::Number(Some(n)) {
            let i = choose|i: int| 0 <= i < items.len() && #[trigger] items[i] == Json::Number(Some(n));
            if i < d.len() {
                assert(d[i] == items[i]);
            }
        }
    }
}

/// The union of lists of ids has every id of every list.
pub proof fn law_union_has_every_id(lists: Seq<Vec<i64>>, n: i64)
    ensures
        flat_ids(lists).contains(n) <==> exists|i: int| 0 <= i < lists.len() && (#[trigger] lists[i])@.contains(n),
    decreases lists.len(),
{
    if lists.len() > 0 {
        let d = lists.drop_last();
        law_union_has_every_id(d, n);
        lemma_in_sum(flat_ids(d), lists.last()@, n);
        assert(lists[lists.len() - 1] == lists.last());
        if flat_ids(d).contains(n) {
            let i = choose|i: int| 0 <= i < d.len() && (#[trigger] d[i])@.contains(n);
            assert(lists[i] == d[i]);
        }
        if exists|i: int| 0 <= i < lists.len() && (#[trigger] lists[i])@.contains(n) {
            let i = choose|i: int| 0 <= i < lists.len() && (#[trigger] lists[i])@.contains(n);
            if i < d.len() {
                assert(d[i] == lists[i]);
            }
        }
    }
}

} // verus!
