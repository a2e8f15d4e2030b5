//! Laws of the checks that a changed file has to pass.

use vstd::prelude::*;

use crate::export::{framed, is_one_line, law_export_reads_back};
use crate::improve::checks::{
    bare_value, dir_name, event_refs, first_missing, front_entries, frontmatter, group_refs, groups_refs, hook_complaint, hook_refs,
    hooks_refs, is_entry, kind_of_hook, read_front_line, rules_complaint, settings_complaint, settings_scan, skill_complaint,
    word_refs, FrontReading, HookKind,
};
use crate::json::{entry_values, member, Json};
use crate::laws::path::{is_file_name, law_file_in_a_directory, law_stem_and_extension};
use crate::laws::text::{all_space, is_bare, law_trim_of_padded};
use crate::code_index::scope::lemma_trim_noop;
use crate::text::{
    contains, find_char, is_space, lemma_find_char, lines, starts_with, trim, trim_end_of, trim_of, trim_start_of, words,
};

verus! {

// --- frontmatter ---

/// Whether a text can be a key: not empty, without white space or a colon.
pub open spec fn is_key(k: Seq<char>) -> bool {
    k.len() > 0 && forall|i: int| 0 <= i < k.len() ==> !is_space(#[trigger] k[i]) && k[i] != ':'
}

/// Whether a text can be a plain value: one line, not empty, with no white
/// space, quote or block mark at its ends.
pub open spec fn is_plain(v: Seq<char>) -> bool {
    &&& v.len() > 0
    &&& !v.contains('\n')
    &&& !is_space(v[0]) && v[0] != '"' && v[0] != '\'' && v[0] != '>' && v[0] != '|'
    &&& !is_space(v.last()) && v.last() != '"' && v.last() != '\''
}

/// Whether a text can go on on a line of its own: one line, not empty, without
/// white space at its ends, and no fence.
pub open spec fn goes_on(v: Seq<char>) -> bool {
    v.len() > 0 && is_bare(v) && !v.contains('\n') && v != "---"@
}

proof fn lemma_plain_value(v: Seq<char>)
    requires
        is_plain(v),
    ensures
        bare_value(" "@ + v) == v,
        trim(v) == v,
{
    reveal_strlit(" ");
    let sp = seq![' '];
    let none: Seq<char> = Seq::empty();
    assert(" "@ + v =~= sp + v + none);
    assert(all_space(sp));
    law_trim_of_padded(sp, v, none);
    assert(trim_start_of(v, '"', '"') == v);
    assert(trim_end_of(v, '"', '"') == v);
    assert(trim_start_of(v, '\'', '\'') == v);
    assert(trim_end_of(v, '\'', '\'') == v);
    assert(trim_start_of(v, '>', '|') == v);
    lemma_trim_noop(v);
}

proof fn lemma_entry_line(st: FrontReading, k: Seq<char>, v: Seq<char>)
    requires
        is_key(k),
        is_plain(v),
    ensures
        is_one_line(k + ": "@ + v),
        trim(k + ": "@ + v) != "---"@,
        read_front_line(st, k + ": "@ + v) == (FrontReading { entries: st.entries.insert(k, v), last: Some(k) }),
{
    let line = k + ": "@ + v;
    reveal_strlit(": ");
    reveal_strlit(" ");
    reveal_strlit("---");
    let n = k.len() as int;
    lemma_find_char(line, ':');
    assert(line[n] == ':');
    assert forall|j: int| 0 <= j < n implies line[j] != ':' by {
        assert(line[j] == k[j]);
    }
    assert(find_char(line, ':') == n);
    assert(line.take(n) =~= k);
    assert(line[0] == k[0]);
    assert(!is_space(k[0]) && !is_space(k[n - 1]));
    assert(!starts_with(line, " "@)) by {
        if starts_with(line, " "@) {
            assert(line.take(1)[0] == line[0]);
            assert(" "@[0] == ' ');
        }
    }
    lemma_trim_noop(k);
    assert(!k.contains(' '));
    assert(line.skip(n + 1) =~= " "@ + v);
    lemma_plain_value(v);
    assert(line.last() == v.last());
    lemma_trim_noop(line);
    assert(line != "---"@) by {
        if line == "---"@ {
            assert(line[n] == '-');
        }
    }
    assert forall|j: int| 0 <= j < line.len() implies line[j] != '\n' by {
        if j < n {
            assert(line[j] == k[j]);
        } else if j >= n + 2 {
            assert(line[j] == v[j - n - 2]);
            assert(v.contains(v[j - n - 2]));
        }
    }
}

/// Entries of a frontmatter as lines.
pub open spec fn entry_lines(es: Seq<(Seq<char>, Seq<char>)>) -> Seq<Seq<char>> {
    es.map_values(|e: (Seq<char>, Seq<char>)| e.0 + ": "@ + e.1)
}

/// The last value of each key.
pub open spec fn last_values(es: Seq<(Seq<char>, Seq<char>)>) -> Map<Seq<char>, Seq<char>>
    decreases es.len(),
{
    if es.len() == 0 {
        Map::empty()
    } else {
        last_values(es.drop_last()).insert(es.last().0, es.last().1)
    }
}

proof fn lemma_entries_read(
    done: Seq<(Seq<char>, Seq<char>)>,
    es: Seq<(Seq<char>, Seq<char>)>,
    last: Option<Seq<char>>,
    rest: Seq<Seq<char>>,
)
    requires
        forall|i: int| 0 <= i < es.len() ==> is_key((#[trigger] es[i]).0) && is_plain(es[i].1),
        rest.len() > 0,
        rest[0] == "---"@,
    ensures
        front_entries(FrontReading { entries: last_values(done), last }, entry_lines(es) + rest) == Some(last_values(done + es)),
    decreases es.len(),
{
    let st = FrontReading { entries: last_values(done), last };
    let ls = entry_lines(es) + rest;
    if es.len() == 0 {
        reveal_strlit("---");
        assert(ls =~= rest);
        assert(rest[0][0] == '-' && rest[0].last() == '-');
        lemma_trim_noop(rest[0]);
        assert(done + es =~= done);
    } else {
        let (k, v) = es[0];
        let q = es.drop_first();
        assert(is_key(es[0].0));
        assert(ls[0] == k + ": "@ + v);
        lemma_entry_line(st, k, v);
        assert(ls.drop_first() =~= entry_lines(q) + rest);
        assert forall|i: int| 0 <= i < q.len() implies is_key((#[trigger] q[i]).0) && is_plain(q[i].1) by {
            assert(q[i] == es[i + 1]);
        }
        let more = done.push(es[0]);
        assert(more.drop_last() =~= done);
        lemma_entries_read(more, q, Some(k), rest);
        assert(more + q =~= done + es);
    }
}

/// A frontmatter reads back: every entry between the two fences, the last one
/// for each key, and nothing of the text behind.
pub proof fn law_frontmatter_reads_back(es: Seq<(Seq<char>, Seq<char>)>, body: Seq<Seq<char>>)
    requires
        forall|i: int| 0 <= i < es.len() ==> is_key((#[trigger] es[i]).0) && is_plain(es[i].1),
        forall|i: int| 0 <= i < body.len() ==> is_one_line(#[trigger] body[i]),
    ensures
        frontmatter(framed(seq!["---"@] + entry_lines(es) + seq!["---"@] + body)) == Some(last_values(es)),
{
    let rest = seq!["---"@] + body;
    let ls = seq!["---"@] + entry_lines(es) + seq!["---"@] + body;
    reveal_strlit("---");
    assert forall|i: int| 0 <= i < ls.len() implies is_one_line(#[trigger] ls[i]) by {
        if 1 <= i <= es.len() {
            let e = es[i - 1];
            assert(is_key(es[i - 1].0));
            lemma_entry_line(FrontReading { entries: Map::empty(), last: None }, e.0, e.1);
        } else if i > es.len() + 1 {
            assert(ls[i] == body[i - es.len() - 2]);
        } else {
            assert(ls[i] == "---"@);
        }
    }
    law_export_reads_back(ls);
    assert(ls[0] == "---"@);
    lemma_trim_noop(ls[0]);
    assert(ls.drop_first() =~= entry_lines(es) + rest);
    let none: Seq<(Seq<char>, Seq<char>)> = Seq::empty();
    lemma_entries_read(none, es, None, rest);
    assert(none + es =~= es);
}

/// A line that is indented goes on with the value before it.
pub proof fn law_frontmatter_goes_on(st: FrontReading, k: Seq<char>, a: Seq<char>, more: Seq<char>)
    requires
        st.last == Some(k),
        st.entries.contains_key(k),
        all_space(a),
        goes_on(more),
    ensures
        read_front_line(st, " "@ + a + more) == (FrontReading {
            entries: st.entries.insert(
                k,
                if st.entries[k].len() == 0 {
                    more
                } else {
                    st.entries[k] + " "@ + more
                },
            ),
            last: st.last,
        }),
{
    reveal_strlit(" ");
    let line = " "@ + a + more;
    assert(line.take(1) =~= " "@);
    assert(!is_entry(line));
    let pad = " "@ + a;
    let none: Seq<char> = Seq::empty();
    assert(line =~= pad + more + none);
    assert forall|i: int| 0 <= i < pad.len() implies is_space(#[trigger] pad[i]) by {
        if i > 0 {
            assert(pad[i] == a[i - 1]);
        }
    }
    law_trim_of_padded(pad, more, none);
}

/// A skill stands exactly where its frontmatter names it as its directory is
/// named and gives it a description.
pub proof fn law_named_and_described_skill_stands(path: Seq<char>, text: Seq<char>)
    ensures
        skill_complaint(path, text) is None <==> {
            &&& frontmatter(text) is Some
            &&& (frontmatter(text)->0).contains_key("name"@)
            &&& (frontmatter(text)->0)["name"@] == dir_name(path)
            &&& (frontmatter(text)->0).contains_key("description"@)
            &&& trim((frontmatter(text)->0)["description"@]).len() > 0
        },
{
}

// --- hooks ---

/// A hook in bash stands exactly where its syntax is sound, it can end well,
/// it does not stop at the first failure, and it may be executed; one in
/// Python where its syntax is sound; any other always.
pub proof fn law_sound_hook_stands(path: Seq<char>, text: Seq<char>, syntax_ok: bool, executable: bool)
    ensures
        kind_of_hook(path, text) == HookKind::Bash ==> (hook_complaint(path, text, syntax_ok, executable) is None <==> syntax_ok
            && contains(text, "exit 0"@) && !contains(text, "set -e"@) && executable),
        kind_of_hook(path, text) == HookKind::Python ==> (hook_complaint(path, text, syntax_ok, executable) is None
            <==> syntax_ok),
        kind_of_hook(path, text) == HookKind::Other ==> hook_complaint(path, text, syntax_ok, executable) is None,
{
}

/// A script is in bash by its extension or by a first line that calls for a
/// shell, and in Python by its extension where it is not.
pub proof fn law_what_a_hook_is_written_in(d: Seq<char>, s: Seq<char>, text: Seq<char>)
    requires
        d.len() > 0,
        is_file_name(s + "."@ + "sh"@),
        is_file_name(s + "."@ + "py"@),
        s.len() > 0,
    ensures
        kind_of_hook(d + "/"@ + (s + "."@ + "sh"@), text) == HookKind::Bash,
        starts_with(text, "#!"@) && lines(text).len() > 0 && contains(lines(text)[0], "bash"@) ==> kind_of_hook(d, text)
            == HookKind::Bash,
        starts_with(text, "#!"@) && lines(text).len() > 0 && contains(lines(text)[0], "/sh"@) ==> kind_of_hook(d, text)
            == HookKind::Bash,
        !starts_with(text, "#!"@) ==> kind_of_hook(d + "/"@ + (s + "."@ + "py"@), text) == HookKind::Python,
{
    let a = s + "."@ + "sh"@;
    let b = s + "."@ + "py"@;
    reveal_strlit("sh");
    reveal_strlit("py");
    law_file_in_a_directory(d, a, a);
    law_file_in_a_directory(d, b, b);
    assert(!"sh"@.contains('.'));
    assert(!"py"@.contains('.'));
    law_stem_and_extension(s, "sh"@);
    law_stem_and_extension(s, "py"@);
    assert("sh"@[0] == 's' && "py"@[0] == 'p');
}

// --- the guide ---

/// The guide stands exactly where it is not empty and kept four fifths of its
/// bytes.
pub proof fn law_guide_keeps_four_fifths(path: Seq<char>, len: int, before: Option<int>)
    requires
        len >= 0,
    ensures
        rules_complaint(path, len, before) is None <==> len > 0 && (before is Some ==> 5 * len >= 4 * before->0),
{
}

// --- settings ---

proof fn lemma_first_missing(refs: Seq<Seq<char>>, present: Seq<bool>)
    requires
        present.len() == refs.len(),
    ensures
        first_missing(refs, present) is None <==> forall|i: int| 0 <= i < present.len() ==> #[trigger] present[i],
        first_missing(refs, present) is Some ==> exists|i: int|
            0 <= i < refs.len() && !#[trigger] present[i] && refs[i] == first_missing(refs, present)->0 && forall|j: int|
                0 <= j < i ==> #[trigger] present[j],
    decreases refs.len(),
{
    if refs.len() > 0 {
        let r = refs.drop_first();
        let p = present.drop_first();
        lemma_first_missing(r, p);
        if present[0] {
            if first_missing(r, p) is None {
                assert forall|i: int| 0 <= i < present.len() implies #[trigger] present[i] by {
                    if i > 0 {
                        assert(p[i - 1]);
                    }
                }
            } else {
                let i = choose|i: int|
                    0 <= i < r.len() && !#[trigger] p[i] && r[i] == first_missing(r, p)->0 && forall|j: int|
                        0 <= j < i ==> #[trigger] p[j];
                assert(!present[i + 1]);
                assert(refs[i + 1] == r[i]);
                assert forall|j: int| 0 <= j < i + 1 implies #[trigger] present[j] by {
                    if j > 0 {
                        assert(p[j - 1]);
                    }
                }
            }
        } else {
            assert(!present[0]);
        }
    }
}

/// Settings stand exactly where every file that their commands name exists and
/// their form is sound; of the missing files the first is named.
pub proof fn law_settings_stand(path: Seq<char>, scan: (Seq<Seq<char>>, Option<Seq<char>>), present: Seq<bool>)
    requires
        present.len() == scan.0.len(),
    ensures
        settings_complaint(path, scan, present) is None <==> scan.1 is None && forall|i: int|
            0 <= i < present.len() ==> #[trigger] present[i],
        forall|i: int|
            0 <= i < present.len() && !#[trigger] present[i] && (forall|j: int| 0 <= j < i ==> #[trigger] present[j])
                ==> settings_complaint(path, scan, present) == Some(
                path + ": "@ + ("hook command references missing file "@ + scan.0[i]),
            ),
{
    lemma_first_missing(scan.0, present);
    assert forall|i: int|
        0 <= i < present.len() && !#[trigger] present[i] && (forall|j: int| 0 <= j < i ==> #[trigger] present[j]) implies settings_complaint(
        path,
        scan,
        present,
    ) == Some(path + ": "@ + ("hook command references missing file "@ + scan.0[i])) by {
        let f = first_missing(scan.0, present);
        assert(f is Some);
        let k = choose|k: int|
            0 <= k < scan.0.len() && !#[trigger] present[k] && scan.0[k] == f->0 && forall|j: int|
                0 <= j < k ==> #[trigger] present[j];
        assert(!(k < i) && !(i < k));
    }
}

proof fn lemma_word_refs(ws: Seq<Seq<char>>, dir: Seq<char>, i: int)
    requires
        0 <= i < ws.len(),
        starts_with(trim_of(ws[i], '\'', '"'), dir),
    ensures
        word_refs(ws, dir).contains(trim_of(ws[i], '\'', '"')),
    decreases ws.len(),
{
    let d = ws.drop_last();
    let all = word_refs(ws, dir);
    let t = trim_of(ws[i], '\'', '"');
    if i == ws.len() - 1 {
        assert(all.last() == t);
        assert(all.contains(all.last()));
    } else {
        assert(d[i] == ws[i]);
        lemma_word_refs(d, dir, i);
        let rest = word_refs(d, dir);
        let k = choose|k: int| 0 <= k < rest.len() && rest[k] == t;
        assert(all[k] == t);
    }
}

proof fn lemma_either(a: Seq<Seq<char>>, b: Seq<Seq<char>>, t: Seq<char>)
    requires
        a.contains(t) || b.contains(t),
    ensures
        (a + b).contains(t),
{
    if a.contains(t) {
        let k = choose|k: int| 0 <= k < a.len() && a[k] == t;
        assert((a + b)[k] == t);
    } else {
        let k = choose|k: int| 0 <= k < b.len() && b[k] == t;
        assert((a + b)[a.len() + k] == t);
    }
}

proof fn lemma_hooks_refs(hs: Seq<Json>, dir: Seq<char>, i: int, t: Seq<char>)
    requires
        0 <= i < hs.len(),
        hook_refs(hs[i], dir).contains(t),
    ensures
        hooks_refs(hs, dir).contains(t),
    decreases hs.len(),
{
    if i < hs.len() - 1 {
        assert(hs.drop_last()[i] == hs[i]);
        lemma_hooks_refs(hs.drop_last(), dir, i, t);
    }
    lemma_either(hooks_refs(hs.drop_last(), dir), hook_refs(hs.last(), dir), t);
}

proof fn lemma_groups_refs(gs: Seq<Json>, dir: Seq<char>, i: int, t: Seq<char>)
    requires
        0 <= i < gs.len(),
        group_refs(gs[i], dir).contains(t),
    ensures
        groups_refs(gs, dir).contains(t),
    decreases gs.len(),
{
    if i < gs.len() - 1 {
        assert(gs.drop_last()[i] == gs[i]);
        lemma_groups_refs(gs.drop_last(), dir, i, t);
    }
    lemma_either(groups_refs(gs.drop_last(), dir), group_refs(gs.last(), dir), t);
}

proof fn lemma_event_refs(es: Seq<Json>, dir: Seq<char>, i: int, t: Seq<char>)
    requires
        0 <= i < es.len(),
        !event_refs(es, dir).1,
        es[i] matches Json::Array(gs) && groups_refs(gs, dir).contains(t),
    ensures
        event_refs(es, dir).0.contains(t),
    decreases es.len(),
{
    match es[0] {
        Json::Array(gs) => {
            let q = es.drop_first();
            if i > 0 {
                assert(q[i - 1] == es[i]);
                lemma_event_refs(q, dir, i - 1, t);
            }
            lemma_either(groups_refs(gs, dir), event_refs(q, dir).0, t);
        },
        _ => {},
    }
}

/// Whether settings have the command in a hook of a group of an event.
pub open spec fn has_command(j: Json, cmd: Seq<char>) -> bool {
    exists|e: int, g: int, h: int| #[trigger] command_at(j, e, g, h) == Some(cmd)
}

/// The command of the `h`-th hook in the `g`-th group of the `e`-th event.
pub open spec fn command_at(j: Json, e: int, g: int, h: int) -> Option<Seq<char>> {
    match member(j, "hooks"@) {
        Some(Json::Object(es)) => if 0 <= e < entry_values(es).len() {
            match entry_values(es)[e] {
                Json::Array(gs) => if 0 <= g < gs.len() {
                    match member(gs[g], "hooks"@) {
                        Some(Json::Array(hs)) => if 0 <= h < hs.len() {
                            match member(hs[h], "command"@) {
                                Some(Json::Text(c)) => Some(c),
                                _ => None,
                            }
                        } else {
                            None
                        },
                        _ => None,
                    }
                } else {
                    None
                },
                _ => None,
            }
        } else {
            None
        },
        _ => None,
    }
}

/// Every file under the hooks directory that a word of any command names is
/// looked for, whichever event, group and hook the command is in.
pub proof fn law_every_named_hook_is_looked_for(path: Seq<char>, j: Json, dir: Seq<char>, cmd: Seq<char>, i: int)
    requires
        j is Object,
        settings_scan(path, j, dir).1 is None,
        has_command(j, cmd),
        0 <= i < words(cmd).len(),
        starts_with(trim_of(words(cmd)[i], '\'', '"'), dir),
    ensures
        settings_scan(path, j, dir).0.contains(trim_of(words(cmd)[i], '\'', '"')),
{
    let t = trim_of(words(cmd)[i], '\'', '"');
    let (e, g, h) = choose|e: int, g: int, h: int| #[trigger] command_at(j, e, g, h) == Some(cmd);
    lemma_word_refs(words(cmd), dir, i);
    match member(j, "hooks"@) {
        Some(Json::Object(es)) => {
            let ev = entry_values(es);
            match ev[e] {
                Json::Array(gs) => {
                    match member(gs[g], "hooks"@) {
                        Some(Json::Array(hs)) => {
                            assert(hook_refs(hs[h], dir).contains(t));
                            lemma_hooks_refs(hs, dir, h, t);
                            assert(group_refs(gs[g], dir).contains(t));
                        },
                        _ => {},
                    }
                    lemma_groups_refs(gs, dir, g, t);
                },
                _ => {},
            }
            lemma_event_refs(ev, dir, e, t);
        },
        _ => {},
    }
}

} // verus!
