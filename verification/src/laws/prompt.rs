//! Laws of the improvement prompt and of what is remembered of a run: no piece
//! of evidence is left out.

use vstd::prelude::*;

use crate::improve::outcome::{
    all_stopped_by, block_detail, failing_run, files_text, paths_behind, Outcome, PRE_RUN_DRIFT_PREFIX,
    UNCOMMITTED_TARGETS_PREFIX,
};
use crate::improve::prompt::{
    introduction, inventory_lines, memories_lines, plain_lines, prompt, relation_lines, relation_text, section,
    targets_block, usage_lines, usage_title, Bundle, RelationLine, PROMPT_CONTRACT, PROMPT_RULES, PROMPT_RULES_REST,
};
use crate::assistant::guide_file;
use crate::improve::targets::Targets;
use crate::laws::text::{lemma_stands_between, lemma_stands_in_part};
use crate::memory::Memory;
use crate::numeral::dec;
use crate::text::{concat, contains, ends_with, join, starts_with, texts, trim};
use crate::textmap::TextMap;
use crate::width::date;

verus! {

/// Each of the pieces stands in their concatenation.
pub proof fn lemma_concat_holds(ps: Seq<Seq<char>>, i: int)
    requires
        0 <= i < ps.len(),
    ensures
        contains(concat(ps), ps[i]),
    decreases ps.len(),
{
    let none: Seq<char> = Seq::empty();
    let a = concat(ps.drop_last());
    if i == ps.len() - 1 {
        assert(concat(ps) =~= a + ps.last() + none);
        lemma_stands_between(a, ps.last(), none);
    } else {
        lemma_concat_holds(ps.drop_last(), i);
        assert(concat(ps) =~= none + a + ps.last());
        lemma_stands_in_part(none, a, ps.last(), ps[i]);
    }
}

/// The prompt's line for a file of the inventory.
pub open spec fn shown_file(f: (String, u64)) -> Seq<char> {
    "- "@ + f.0@ + " ("@ + dec(f.1 as int) + " bytes)\n"@
}

/// The prompt's line for a memory: its id, its day, its source and its text.
pub open spec fn shown_memory(m: Memory) -> Seq<char> {
    "m"@ + dec(m.id as int) + " ["@ + date(m.created_at@) + "] ("@ + (if m.source is Some {
        (m.source->0)@
    } else {
        "-"@
    }) + ") "@ + trim(m.content@) + "\n"@
}

/// The prompt's line for an association, with its evidence where it has any.
pub open spec fn shown_relation(r: RelationLine) -> Seq<char> {
    "r"@ + dec(r.id as int) + " "@ + r.src@ + " --"@ + r.predicate@ + "--> "@ + r.dst@ + (if r.evidence_id is None {
        Seq::empty()
    } else if r.evidence is None {
        " (evidence m"@ + dec(r.evidence_id->0 as int) + ")"@
    } else {
        " (evidence m"@ + dec(r.evidence_id->0 as int) + ": "@ + trim((r.evidence->0)@) + ")"@
    }) + "\n"@
}

/// The prompt's line for a skill's usage.
pub open spec fn shown_usage(name: Seq<char>, u: (u32, u32, u32)) -> Seq<char> {
    "- "@ + name + ": "@ + dec(u.0 as int) + " invocations, "@ + dec(u.1 as int) + " corrections, "@ + dec(u.2 as int)
        + " sessions\n"@
}

proof fn lemma_inventory(v: Seq<(String, u64)>)
    ensures
        inventory_lines(v) == concat(v.map_values(|f: (String, u64)| shown_file(f))),
    decreases v.len(),
{
    let ps = v.map_values(|f: (String, u64)| shown_file(f));
    if v.len() > 0 {
        lemma_inventory(v.drop_last());
        assert(ps.drop_last() =~= v.drop_last().map_values(|f: (String, u64)| shown_file(f)));
        assert(inventory_lines(v) =~= concat(ps));
    }
}

proof fn lemma_plain(v: Seq<Seq<char>>)
    ensures
        plain_lines(v) == concat(v.map_values(|l: Seq<char>| l + "\n"@)),
    decreases v.len(),
{
    let ps = v.map_values(|l: Seq<char>| l + "\n"@);
    if v.len() > 0 {
        lemma_plain(v.drop_last());
        assert(ps.drop_last() =~= v.drop_last().map_values(|l: Seq<char>| l + "\n"@));
        assert(plain_lines(v) =~= concat(ps));
    }
}

proof fn lemma_memories(v: Seq<Memory>)
    ensures
        memories_lines(v) == concat(v.map_values(|m: Memory| shown_memory(m))),
    decreases v.len(),
{
    let ps = v.map_values(|m: Memory| shown_memory(m));
    if v.len() > 0 {
        lemma_memories(v.drop_last());
        assert(ps.drop_last() =~= v.drop_last().map_values(|m: Memory| shown_memory(m)));
        assert(memories_lines(v) =~= concat(ps));
    }
}

proof fn lemma_relations(v: Seq<RelationLine>)
    ensures
        relation_lines(v) == concat(v.map_values(|r: RelationLine| shown_relation(r))),
    decreases v.len(),
{
    let ps = v.map_values(|r: RelationLine| shown_relation(r));
    if v.len() > 0 {
        lemma_relations(v.drop_last());
        assert(ps.drop_last() =~= v.drop_last().map_values(|r: RelationLine| shown_relation(r)));
        let r = v.last();
        assert(relation_text(r) == shown_relation(r));
        assert(relation_lines(v) =~= concat(ps));
    }
}

proof fn lemma_usage(m: TextMap<(u32, u32, u32)>, n: int, i: int)
    requires
        0 <= i < n,
    ensures
        contains(usage_lines(m, n), shown_usage(m.key(i), m.val(i))),
    decreases n,
{
    let none: Seq<char> = Seq::empty();
    let a = usage_lines(m, n - 1);
    let l = shown_usage(m.key(n - 1), m.val(n - 1));
    if i == n - 1 {
        assert(usage_lines(m, n) =~= a + l + none);
        lemma_stands_between(a, l, none);
    } else {
        lemma_usage(m, n - 1, i);
        assert(usage_lines(m, n) =~= none + a + l);
        lemma_stands_in_part(none, a, l, shown_usage(m.key(i), m.val(i)));
    }
}

proof fn lemma_in_section(title: Seq<char>, body: Seq<char>, is_empty: bool, word: Seq<char>, p: Seq<char>)
    requires
        contains(body, p),
    ensures
        contains(section(title, body, is_empty, word), p),
{
    let w = if is_empty {
        word
    } else {
        Seq::empty()
    };
    lemma_stands_in_part(title + w, body, "\n"@, p);
}

/// The six sections of the prompt.
pub open spec fn sections(b: Bundle) -> Seq<Seq<char>> {
    seq![
        section(
            "## Current inventory (read a file before deciding anything about it)\n\n"@,
            inventory_lines(b.inventory@),
            b.inventory@.len() == 0,
            "(none found)\n"@,
        ),
        section(
            "## What you believe about this user (mental model)\n\n"@,
            plain_lines(texts(b.model_lines@)),
            b.model_lines@.len() == 0,
            "(no durable beliefs yet)\n"@,
        ),
        section(
            "## New memories since the last improve run\n\n"@,
            memories_lines(b.new_memories@),
            b.new_memories@.len() == 0,
            "(none)\n"@,
        ),
        section(
            "## Affective / behavioral associations since the last run\n\n"@,
            relation_lines(b.relations@),
            b.relations@.len() == 0,
            "(none)\n"@,
        ),
        section(
            usage_title(),
            usage_lines(b.skill_usage, b.skill_usage.size() as int),
            b.skill_usage.size() == 0,
            "(no skill invocations recorded)\n"@,
        ),
        section(
            "## Your own prior improve runs (oldest first)\n\n"@,
            memories_lines(b.history@),
            b.history@.len() == 0,
            "(this is the first run)\n"@,
        ),
    ]
}

proof fn lemma_in_prompt(b: Bundle, t: Targets, assistant: Seq<char>, k: int, p: Seq<char>)
    requires
        0 <= k < 6,
        contains(sections(b)[k], p),
    ensures
        contains(prompt(b, t, assistant), p),
{
    let s = sections(b);
    let s0 = s[0];
    let s1 = s[1];
    let s2 = s[2];
    let s3 = s[3];
    let s4 = s[4];
    let s5 = s[5];
    let i = introduction(assistant);
    let head = i + targets_block(t);
    let g = guide_file(assistant);
    let all = prompt(b, t, assistant);
    assert(all == head + s0 + s1 + s2 + s3 + s4 + s5 + PROMPT_RULES@ + g + PROMPT_RULES_REST@ + PROMPT_CONTRACT@);
    let none: Seq<char> = Seq::empty();
    let a0 = head + s0;
    let a1 = a0 + s1;
    let a2 = a1 + s2;
    let a3 = a2 + s3;
    let a4 = a3 + s4;
    let a5 = a4 + s5;
    if k == 0 {
        assert(head + s0 + none =~= a0);
        lemma_stands_in_part(head, s0, none, p);
        lemma_grows(a0, s1, p);
    }
    if k == 1 {
        assert(a0 + s1 + none =~= a1);
        lemma_stands_in_part(a0, s1, none, p);
    }
    if k <= 1 {
        lemma_grows(a1, s2, p);
    }
    if k == 2 {
        assert(a1 + s2 + none =~= a2);
        lemma_stands_in_part(a1, s2, none, p);
    }
    if k <= 2 {
        lemma_grows(a2, s3, p);
    }
    if k == 3 {
        assert(a2 + s3 + none =~= a3);
        lemma_stands_in_part(a2, s3, none, p);
    }
    if k <= 3 {
        lemma_grows(a3, s4, p);
    }
    if k == 4 {
        assert(a3 + s4 + none =~= a4);
        lemma_stands_in_part(a3, s4, none, p);
    }
    if k <= 4 {
        lemma_grows(a4, s5, p);
    }
    if k == 5 {
        assert(a4 + s5 + none =~= a5);
        lemma_stands_in_part(a4, s5, none, p);
    }
    lemma_grows(a5, PROMPT_RULES@, p);
    lemma_grows(a5 + PROMPT_RULES@, g, p);
    lemma_grows(a5 + PROMPT_RULES@ + g, PROMPT_RULES_REST@, p);
    lemma_grows(a5 + PROMPT_RULES@ + g + PROMPT_RULES_REST@, PROMPT_CONTRACT@, p);
}

/// What stands in a text stands in it with more behind.
pub proof fn lemma_grows(s: Seq<char>, more: Seq<char>, p: Seq<char>)
    requires
        contains(s, p),
    ensures
        contains(s + more, p),
{
    let none: Seq<char> = Seq::empty();
    assert(none + s + more =~= s + more);
    lemma_stands_in_part(none, s, more, p);
}

/// The prompt shows every file of the inventory, every belief, every new
/// memory, every association, every skill's usage and every earlier run.
pub proof fn law_prompt_holds_all_evidence(b: Bundle, t: Targets, assistant: Seq<char>)
    ensures
        forall|i: int| 0 <= i < b.inventory@.len() ==> contains(prompt(b, t, assistant), shown_file(#[trigger] b.inventory@[i])),
        forall|i: int|
            0 <= i < b.model_lines@.len() ==> contains(prompt(b, t, assistant), (#[trigger] b.model_lines@[i])@ + "\n"@),
        forall|i: int|
            0 <= i < b.new_memories@.len() ==> contains(prompt(b, t, assistant), shown_memory(#[trigger] b.new_memories@[i])),
        forall|i: int|
            0 <= i < b.relations@.len() ==> contains(prompt(b, t, assistant), shown_relation(#[trigger] b.relations@[i])),
        forall|i: int|
            0 <= i < b.skill_usage.size() ==> contains(
                prompt(b, t, assistant),
                shown_usage(#[trigger] b.skill_usage.key(i), b.skill_usage.val(i)),
            ),
        forall|i: int| 0 <= i < b.history@.len() ==> contains(prompt(b, t, assistant), shown_memory(#[trigger] b.history@[i])),
{
    let all = prompt(b, t, assistant);
    let s = sections(b);
    lemma_inventory(b.inventory@);
    lemma_plain(texts(b.model_lines@));
    lemma_memories(b.new_memories@);
    lemma_memories(b.history@);
    lemma_relations(b.relations@);
    assert forall|i: int| 0 <= i < b.inventory@.len() implies contains(all, shown_file(#[trigger] b.inventory@[i])) by {
        let ps = b.inventory@.map_values(|f: (String, u64)| shown_file(f));
        lemma_concat_holds(ps, i);
        lemma_in_section(
            "## Current inventory (read a file before deciding anything about it)\n\n"@,
            inventory_lines(b.inventory@),
            b.inventory@.len() == 0,
            "(none found)\n"@,
            ps[i],
        );
        lemma_in_prompt(b, t, assistant, 0, ps[i]);
    }
    assert forall|i: int| 0 <= i < b.model_lines@.len() implies contains(all, (#[trigger] b.model_lines@[i])@ + "\n"@) by {
        let v = texts(b.model_lines@);
        let ps = v.map_values(|l: Seq<char>| l + "\n"@);
        lemma_concat_holds(ps, i);
        lemma_in_section(
            "## What you believe about this user (mental model)\n\n"@,
            plain_lines(v),
            b.model_lines@.len() == 0,
            "(no durable beliefs yet)\n"@,
            ps[i],
        );
        lemma_in_prompt(b, t, assistant, 1, ps[i]);
    }
    assert forall|i: int| 0 <= i < b.new_memories@.len() implies contains(all, shown_memory(#[trigger] b.new_memories@[i])) by {
        let ps = b.new_memories@.map_values(|m: Memory| shown_memory(m));
        lemma_concat_holds(ps, i);
        lemma_in_section(
            "## New memories since the last improve run\n\n"@,
            memories_lines(b.new_memories@),
            b.new_memories@.len() == 0,
            "(none)\n"@,
            ps[i],
        );
        lemma_in_prompt(b, t, assistant, 2, ps[i]);
    }
    assert forall|i: int| 0 <= i < b.relations@.len() implies contains(all, shown_relation(#[trigger] b.relations@[i])) by {
        let ps = b.relations@.map_values(|r: RelationLine| shown_relation(r));
        lemma_concat_holds(ps, i);
        lemma_in_section(
            "## Affective / behavioral associations since the last run\n\n"@,
            relation_lines(b.relations@),
            b.relations@.len() == 0,
            "(none)\n"@,
            ps[i],
        );
        lemma_in_prompt(b, t, assistant, 3, ps[i]);
    }
    assert forall|i: int| 0 <= i < b.skill_usage.size() implies contains(
        all,
        shown_usage(#[trigger] b.skill_usage.key(i), b.skill_usage.val(i)),
    ) by {
        let n = b.skill_usage.size() as int;
        lemma_usage(b.skill_usage, n, i);
        let l = shown_usage(b.skill_usage.key(i), b.skill_usage.val(i));
        lemma_in_section(
            usage_title(),
            usage_lines(b.skill_usage, n),
            b.skill_usage.size() == 0,
            "(no skill invocations recorded)\n"@,
            l,
        );
        lemma_in_prompt(b, t, assistant, 4, l);
    }
    assert forall|i: int| 0 <= i < b.history@.len() implies contains(all, shown_memory(#[trigger] b.history@[i])) by {
        let ps = b.history@.map_values(|m: Memory| shown_memory(m));
        lemma_concat_holds(ps, i);
        lemma_in_section(
            "## Your own prior improve runs (oldest first)\n\n"@,
            memories_lines(b.history@),
            b.history@.len() == 0,
            "(this is the first run)\n"@,
            ps[i],
        );
        lemma_in_prompt(b, t, assistant, 5, ps[i]);
    }
}

/// The prompt names each of the four targets.
pub proof fn law_prompt_names_the_targets(t: Targets)
    ensures
        contains(targets_block(t), "`"@ + t.skills_dir@ + "/<name>/SKILL.md`"@),
        contains(targets_block(t), "`"@ + t.claude_md@ + "`"@),
        contains(targets_block(t), "`"@ + t.settings_json@ + "`"@),
        contains(targets_block(t), "`"@ + t.hooks_dir@ + "/*.sh`"@),
{
    let all = targets_block(t);
    reveal_strlit("## Write targets (the only paths you may change)\n\n- Skills: `");
    reveal_strlit("/<name>/SKILL.md` (edit existing, or create a new directory + SKILL.md)\n- Global rules: `");
    reveal_strlit("`\n- Harness settings (hooks, env, permissions): `");
    reveal_strlit("`\n- Hook scripts: `");
    reveal_strlit("/*.sh` and `*.py`\n\n");
    reveal_strlit("`");
    reveal_strlit("/<name>/SKILL.md`");
    reveal_strlit("/*.sh`");
    let h1 = "## Write targets (the only paths you may change)\n\n- Skills: `"@;
    let h2 = "/<name>/SKILL.md` (edit existing, or create a new directory + SKILL.md)\n- Global rules: `"@;
    let h3 = "`\n- Harness settings (hooks, env, permissions): `"@;
    let h4 = "`\n- Hook scripts: `"@;
    let h5 = "/*.sh` and `*.py`\n\n"@;
    let q = "`"@;
    let a = t.skills_dir@;
    let b1 = t.claude_md@;
    let c = t.settings_json@;
    let d = t.hooks_dir@;
    let w1 = "/<name>/SKILL.md`"@;
    let w5 = "/*.sh`"@;
    assert(h1 =~= h1.drop_last() + q);
    assert(h2 =~= w1 + h2.skip(w1.len() as int));
    assert(h2 =~= h2.drop_last() + q);
    assert(h3 =~= h3.drop_last() + q);
    assert(h4 =~= h4.drop_last() + q);
    assert(h3 =~= q + h3.drop_first());
    assert(h4 =~= q + h4.drop_first());
    assert(h5 =~= w5 + h5.skip(w5.len() as int));
    let r1 = h2.skip(w1.len() as int) + b1 + h3 + c + h4 + d + h5;
    assert(all =~= h1.drop_last() + (q + a + w1) + r1);
    lemma_stands_between(h1.drop_last(), q + a + w1, r1);
    let l2 = h1 + a + h2.drop_last();
    let r2 = h3.drop_first() + c + h4 + d + h5;
    assert(all =~= l2 + (q + b1 + q) + r2);
    lemma_stands_between(l2, q + b1 + q, r2);
    let l3 = h1 + a + h2 + b1 + h3.drop_last();
    let r3 = h4.drop_first() + d + h5;
    assert(all =~= l3 + (q + c + q) + r3);
    lemma_stands_between(l3, q + c + q, r3);
    let l4 = h1 + a + h2 + b1 + h3 + c + h4.drop_last();
    let r4 = h5.skip(w5.len() as int);
    assert(all =~= l4 + (q + d + w5) + r4);
    lemma_stands_between(l4, q + d + w5, r4);
}

// --- what is remembered of a run ---

/// The memory of a run that changed something holds what it did, to which
/// files, in which commit, why, and on what evidence.
pub proof fn law_applied_run_is_remembered(o: Outcome)
    requires
        o is Applied,
    ensures
        starts_with(o.text(), "Improve run applied `"@ + o->result.action.word() + "` to "@ + files_text(texts(o->result.files@))),
        contains(o.text(), " (chezmoi commit "@ + o->sha@ + ")"@),
        contains(o.text(), "Rationale: "@ + trim(o->result.rationale@)),
        o->result.files@.len() > 0 ==> files_text(texts(o->result.files@)) == join(texts(o->result.files@), ", "@),
        o->result.files@.len() == 0 ==> files_text(texts(o->result.files@)) == "no files"@,
{
    let r = o->result;
    let sha = o->sha@;
    let ft = files_text(texts(r.files@));
    let h = "Improve run applied `"@ + r.action.word() + "` to "@ + ft;
    let ev = crate::improve::result::or_none(r.evidence@);
    let all = o.text();
    reveal_strlit("). Rationale: ");
    reveal_strlit(")");
    reveal_strlit("Rationale: ");
    reveal_strlit(". ");
    let w = "). Rationale: "@;
    assert(w =~= ")"@ + ". "@ + "Rationale: "@);
    assert(all.take(h.len() as int) =~= h);
    let c = " (chezmoi commit "@ + sha + ")"@;
    let rest = ". "@ + "Rationale: "@ + trim(r.rationale@) + " Evidence: "@ + ev + "."@;
    assert(all =~= h + c + rest);
    lemma_stands_between(h, c, rest);
    let why = "Rationale: "@ + trim(r.rationale@);
    let left = h + c + ". "@;
    let right = " Evidence: "@ + ev + "."@;
    assert(all =~= left + why + right);
    lemma_stands_between(left, why, right);
}

/// The memory of a run that changed nothing says why; that of one that failed
/// says the reason.
pub proof fn law_other_runs_are_remembered(o: Outcome)
    ensures
        o matches Outcome::Nothing { rationale } ==> ends_with(o.text(), "Rationale: "@ + trim(rationale@)),
        o matches Outcome::Failed { reason } ==> o.text() == "Improve run failed and was rolled back: "@ + trim(reason@),
{
    if let Outcome::Nothing { rationale } = o {
        reveal_strlit("Improve run decided no config change was warranted. Rationale: ");
        reveal_strlit("Rationale: ");
        let t = "Rationale: "@ + trim(rationale@);
        assert(o.text().skip(o.text().len() - t.len()) =~= t);
    }
}

/// A streak of failed runs counts from the newest on and ends at the first run
/// that did not fail.
pub proof fn law_streak_counts_from_the_newest(recent: Seq<bool>, n: int)
    requires
        0 <= n,
    ensures
        ({
            let k = failing_run(recent, n);
            &&& 0 <= k <= n && k <= recent.len()
            &&& forall|i: int| 0 <= i < k ==> #[trigger] recent[i]
            &&& k < n && k < recent.len() ==> !recent[k]
        }),
    decreases n,
{
    if n > 0 && recent.len() > 0 && recent[0] {
        let d = recent.drop_first();
        law_streak_counts_from_the_newest(d, n - 1);
        let k = failing_run(recent, n);
        assert forall|i: int| 0 <= i < k implies #[trigger] recent[i] by {
            if i > 0 {
                assert(d[i - 1]);
            }
        }
        if k < n && k < recent.len() {
            assert(recent[k] == d[k - 1]);
        }
    }
}

/// A streak that uncommitted targets or drift explain is reported since its
/// oldest run, with the newest run's paths.
pub proof fn law_blocked_streak_is_explained(streak: Seq<&Memory>, paths: Seq<Seq<char>>)
    requires
        streak.len() > 0,
    ensures
        all_stopped_by(streak, UNCOMMITTED_TARGETS_PREFIX@) && paths_behind(UNCOMMITTED_TARGETS_PREFIX@, streak[0].content@)
            == Some(paths) ==> block_detail(streak) == Some(
            "blocked since "@ + streak.last().created_at@ + " \u{2014} uncommitted: "@ + join(paths, ", "@),
        ),
        all_stopped_by(streak, PRE_RUN_DRIFT_PREFIX@) && !all_stopped_by(streak, UNCOMMITTED_TARGETS_PREFIX@) && paths_behind(
            PRE_RUN_DRIFT_PREFIX@,
            streak[0].content@,
        ) == Some(paths) ==> block_detail(streak) == Some(
            "blocked since "@ + streak.last().created_at@ + " \u{2014} targets differ from chezmoi source: "@ + join(paths, ", "@),
        ),
        !all_stopped_by(streak, PRE_RUN_DRIFT_PREFIX@) && !all_stopped_by(streak, UNCOMMITTED_TARGETS_PREFIX@) ==> block_detail(
            streak,
        ) is None,
{
}

} // verus!
