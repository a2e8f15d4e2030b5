//! Laws of the module summaries: their prompts, digests and leads.

use vstd::prelude::*;

use crate::code_index::summary::{
    blocks, blocks_len, by_path, capped, child_block, child_lines, digest_text, fitting, hex, is_longest, last_stop,
    lead, longest, mirror, module_prompt, place_child, ChildView, MODULE_PROMPT_RULE, MODULE_PROMPT_TAIL,
    REPO_PROMPT_TAIL,
};
use crate::code_index::scope::lemma_trim_noop;
use crate::laws::text::{
    is_bare, is_word, law_join_undone_by_split, law_words_of_joined_words, lemma_own_trim_is_bare, lemma_stands_between,
    lemma_stands_in_part,
};
use crate::order::{before, not_after, sorted};
use crate::text::{
    contains, ends_with, find, is_space, join, lemma_find_from, lemma_find_is, occurs_at, rfind, split, split_on, starts_with,
    trim, trim_end, words,
};

verus! {

// --- the prompt ---

/// How many characters a prompt needs for a child: the path, a colon, a line
/// break, the text and a line break.
pub open spec fn room_for(c: ChildView) -> int {
    c.path.len() as int + 2 + c.text.len() + 1
}

/// How many characters a prompt needs for all of the children.
pub open spec fn room_for_all(cs: Seq<ChildView>) -> int
    decreases cs.len(),
{
    if cs.len() == 0 {
        0
    } else {
        room_for(cs.last()) + room_for_all(cs.drop_last())
    }
}

/// The children one after the other, each with its path over its text and an
/// empty line behind it.
pub open spec fn shown_children(p: Seq<ChildView>) -> Seq<char>
    decreases p.len(),
{
    if p.len() == 0 {
        Seq::empty()
    } else {
        shown_children(p.drop_last()) + p.last().path + ":\n"@ + p.last().text + "\n\n"@
    }
}

/// Whether no child comes before one with an earlier path.
pub open spec fn in_path_order(p: Seq<ChildView>) -> bool {
    forall|i: int, j: int| 0 <= i < j < p.len() ==> !before((#[trigger] p[j]).path, (#[trigger] p[i]).path)
}

proof fn lemma_room(cs: Seq<ChildView>)
    ensures
        room_for_all(cs) == blocks_len(cs),
        forall|c: ChildView| room_for(c) == (#[trigger] child_block(c)).len(),
    decreases cs.len(),
{
    reveal_strlit(":\n");
    reveal_strlit("\n");
    if cs.len() > 0 {
        lemma_room(cs.drop_last());
    }
}

proof fn lemma_place_child_keeps(s: Seq<ChildView>, x: ChildView)
    ensures
        place_child(s, x).to_multiset() == s.to_multiset().insert(x),
        place_child(s, x).len() == s.len() + 1,
    decreases s.len(),
{
    broadcast use vstd::seq_lib::group_to_multiset_ensures;

    if s.len() > 0 && before(x.path, s.last().path) {
        lemma_place_child_keeps(s.drop_last(), x);
        assert(s.drop_last().push(s.last()) =~= s);
        assert(place_child(s, x).to_multiset() =~= s.to_multiset().insert(x));
    }
}

pub proof fn lemma_by_path_keeps(cs: Seq<ChildView>)
    ensures
        by_path(cs).to_multiset() == cs.to_multiset(),
        by_path(cs).len() == cs.len(),
    decreases cs.len(),
{
    broadcast use vstd::seq_lib::group_to_multiset_ensures;

    if cs.len() > 0 {
        lemma_by_path_keeps(cs.drop_last());
        lemma_place_child_keeps(by_path(cs.drop_last()), cs.last());
        assert(cs.drop_last().push(cs.last()) =~= cs);
    }
}

proof fn lemma_place_child_orders(s: Seq<ChildView>, x: ChildView)
    requires
        in_path_order(s),
    ensures
        in_path_order(place_child(s, x)),
        forall|i: int|
            0 <= i < place_child(s, x).len() ==> (#[trigger] place_child(s, x)[i] == x || s.contains(place_child(s, x)[i])),
    decreases s.len(),
{
    let r = place_child(s, x);
    if s.len() > 0 && before(x.path, s.last().path) {
        let d = s.drop_last();
        assert(in_path_order(d)) by {
            assert forall|i: int, j: int| 0 <= i < j < d.len() implies !before((#[trigger] d[j]).path, (#[trigger] d[i]).path) by {
                assert(d[j] == s[j] && d[i] == s[i]);
            }
        }
        lemma_place_child_orders(d, x);
        let q = place_child(d, x);
        assert forall|i: int| 0 <= i < r.len() implies (#[trigger] r[i] == x || s.contains(r[i])) by {
            if i < q.len() {
                assert(r[i] == q[i]);
                if q[i] != x {
                    assert(d.contains(q[i]));
                    let k = choose|k: int| 0 <= k < d.len() && d[k] == q[i];
                    assert(s[k] == q[i]);
                }
            } else {
                assert(r[i] == s[s.len() - 1]);
            }
        }
        assert forall|i: int, j: int| 0 <= i < j < r.len() implies !before((#[trigger] r[j]).path, (#[trigger] r[i]).path) by {
            if j < q.len() {
                assert(r[j] == q[j] && r[i] == q[i]);
            } else {
                assert(r[j] == s.last());
                assert(r[i] == q[i]);
                if q[i] == x {
                    crate::order::lemma_before_asymmetric(x.path, s.last().path);
                } else {
                    assert(d.contains(q[i]));
                    let k = choose|k: int| 0 <= k < d.len() && d[k] == q[i];
                    assert(s[k] == q[i]);
                    assert(s[s.len() - 1] == s.last());
                }
            }
        }
    } else {
        assert(r =~= s.push(x));
        assert forall|i: int| 0 <= i < r.len() implies (#[trigger] r[i] == x || s.contains(r[i])) by {
            if i < s.len() {
                assert(r[i] == s[i]);
            }
        }
        assert forall|i: int, j: int| 0 <= i < j < r.len() implies !before((#[trigger] r[j]).path, (#[trigger] r[i]).path) by {
            if j < s.len() {
                assert(r[j] == s[j] && r[i] == s[i]);
            } else {
                assert(r[i] == s[i]);
                let l = s[s.len() - 1];
                if before(x.path, s[i].path) {
                    if i < s.len() - 1 {
                        assert(!before(l.path, s[i].path));
                        crate::order::lemma_before_total(l.path, s[i].path);
                        if l.path != s[i].path {
                            crate::order::lemma_before_transitive(x.path, s[i].path, l.path);
                        }
                    }
                }
            }
        }
    }
}

pub proof fn lemma_by_path_orders(cs: Seq<ChildView>)
    ensures
        in_path_order(by_path(cs)),
    decreases cs.len(),
{
    if cs.len() > 0 {
        lemma_by_path_orders(cs.drop_last());
        lemma_place_child_orders(by_path(cs.drop_last()), cs.last());
    }
}

proof fn lemma_shown(p: Seq<ChildView>)
    ensures
        blocks(p) == shown_children(p),
    decreases p.len(),
{
    reveal_strlit("\n");
    reveal_strlit("\n\n");
    if p.len() > 0 {
        lemma_shown(p.drop_last());
        assert(blocks(p) =~= shown_children(p));
    }
}

proof fn lemma_shown_holds(p: Seq<ChildView>, i: int)
    requires
        0 <= i < p.len(),
    ensures
        contains(shown_children(p), p[i].path + ":\n"@ + p[i].text + "\n\n"@),
    decreases p.len(),
{
    let c = p.last();
    let b = c.path + ":\n"@ + c.text + "\n\n"@;
    let none: Seq<char> = Seq::empty();
    assert(shown_children(p) =~= shown_children(p.drop_last()) + b + none);
    if i == p.len() - 1 {
        lemma_stands_between(shown_children(p.drop_last()), b, none);
    } else {
        lemma_shown_holds(p.drop_last(), i);
        assert(shown_children(p) =~= none + shown_children(p.drop_last()) + b);
        lemma_stands_in_part(none, shown_children(p.drop_last()), b, p[i].path + ":\n"@ + p[i].text + "\n\n"@);
    }
}

/// A module's prompt shows the children that the cap leaves, each once, in the
/// order of their paths, and nothing else between its head and its question.
pub proof fn law_module_prompt_shows_what_fits(project: Seq<char>, dir: Seq<char>, is_repo: bool, cs: Seq<ChildView>)
    ensures
        exists|p: Seq<ChildView>|
            p.to_multiset() == fitting(cs).to_multiset() && in_path_order(p) && module_prompt(project, dir, is_repo, cs)
                == "Project: "@ + project + "\nModule: "@ + dir + "\n\n"@ + #[trigger] shown_children(p) + MODULE_PROMPT_RULE@ + (
            if is_repo {
                REPO_PROMPT_TAIL@
            } else {
                MODULE_PROMPT_TAIL@
            }),
{
    let p = by_path(fitting(cs));
    lemma_by_path_keeps(fitting(cs));
    lemma_by_path_orders(fitting(cs));
    lemma_shown(p);
    assert(shown_children(p) == blocks(p));
}

proof fn lemma_same_members(p: Seq<ChildView>, q: Seq<ChildView>, c: ChildView)
    requires
        p.to_multiset() == q.to_multiset(),
        q.contains(c),
    ensures
        p.contains(c),
{
    broadcast use vstd::seq_lib::group_to_multiset_ensures;

    assert(q.to_multiset().count(c) > 0);
}

/// A module's prompt shows every child that the cap did not drop.
pub proof fn law_module_prompt_holds_every_child(
    project: Seq<char>,
    dir: Seq<char>,
    is_repo: bool,
    cs: Seq<ChildView>,
    c: ChildView,
)
    requires
        fitting(cs).contains(c),
    ensures
        contains(module_prompt(project, dir, is_repo, cs), c.path + ":\n"@ + c.text + "\n\n"@),
{
    let p = by_path(fitting(cs));
    lemma_by_path_keeps(fitting(cs));
    lemma_same_members(p, fitting(cs), c);
    lemma_shown(p);
    let i = choose|i: int| 0 <= i < p.len() && p[i] == c;
    lemma_shown_holds(p, i);
    let head = "Project: "@ + project + "\nModule: "@ + dir + "\n\n"@;
    let tail = MODULE_PROMPT_RULE@ + (if is_repo {
        REPO_PROMPT_TAIL@
    } else {
        MODULE_PROMPT_TAIL@
    });
    assert(module_prompt(project, dir, is_repo, cs) =~= head + blocks(p) + tail);
    lemma_stands_in_part(head, shown_children(p), tail, c.path + ":\n"@ + c.text + "\n\n"@);
}

/// Where the children all fit, the prompt shows every one of them.
pub proof fn law_module_prompt_drops_none_that_fit(
    project: Seq<char>,
    dir: Seq<char>,
    is_repo: bool,
    cs: Seq<ChildView>,
)
    requires
        room_for_all(cs) <= 30_000,
    ensures
        fitting(cs) == cs,
        forall|i: int|
            0 <= i < cs.len() ==> contains(
                module_prompt(project, dir, is_repo, cs),
                (#[trigger] cs[i]).path + ":\n"@ + cs[i].text + "\n\n"@,
            ),
{
    lemma_room(cs);
    assert forall|i: int| 0 <= i < cs.len() implies contains(
        module_prompt(project, dir, is_repo, cs),
        (#[trigger] cs[i]).path + ":\n"@ + cs[i].text + "\n\n"@,
    ) by {
        law_module_prompt_holds_every_child(project, dir, is_repo, cs, cs[i]);
    }
}

/// Whether `kept` is what is left of `cs` when children are taken out, and
/// none that was taken out is shorter than one that was left.
pub open spec fn is_left_of(kept: Seq<ChildView>, cs: Seq<ChildView>, dropped: Seq<ChildView>) -> bool {
    &&& cs.to_multiset() == kept.to_multiset().add(dropped.to_multiset())
    &&& forall|i: int, j: int|
        0 <= i < kept.len() && 0 <= j < dropped.len() ==> room_for(#[trigger] kept[i]) <= room_for(#[trigger] dropped[j])
}

proof fn lemma_fitting_members(cs: Seq<ChildView>, c: ChildView)
    requires
        fitting(cs).contains(c),
    ensures
        cs.contains(c),
    decreases cs.len(),
{
    let i = longest(cs);
    if blocks_len(cs) > 30_000 && is_longest(cs, i) {
        let r = cs.remove(i);
        lemma_fitting_members(r, c);
        let k = choose|k: int| 0 <= k < r.len() && r[k] == c;
        assert(cs[if k < i { k } else { k + 1 }] == c);
    }
}

/// The cap drops the longest children first, and only while the rest together
/// with the one dropped last would be too long.
pub proof fn law_cap_drops_the_longest(cs: Seq<ChildView>)
    ensures
        exists|dropped: Seq<ChildView>| {
            &&& #[trigger] is_left_of(fitting(cs), cs, dropped)
            &&& room_for_all(fitting(cs)) <= 30_000
            &&& dropped.len() > 0 ==> room_for_all(fitting(cs)) + room_for(dropped.last()) > 30_000
        },
    decreases cs.len(),
{
    broadcast use vstd::seq_lib::group_to_multiset_ensures;

    crate::code_index::summary::law_prompt_children_fit(cs);
    lemma_room(cs);
    lemma_room(fitting(cs));
    let i = longest(cs);
    if blocks_len(cs) <= 30_000 || !is_longest(cs, i) {
        let none: Seq<ChildView> = Seq::empty();
        assert(cs.to_multiset() =~= cs.to_multiset().add(none.to_multiset()));
        assert(is_left_of(fitting(cs), cs, none));
    } else {
        let r = cs.remove(i);
        law_cap_drops_the_longest(r);
        let d = choose|d: Seq<ChildView>| {
            &&& #[trigger] is_left_of(fitting(r), r, d)
            &&& room_for_all(fitting(r)) <= 30_000
            &&& d.len() > 0 ==> room_for_all(fitting(r)) + room_for(d.last()) > 30_000
        };
        let all = seq![cs[i]] + d;
        let one = seq![cs[i]];
        assert(all.to_multiset() =~= one.to_multiset().add(d.to_multiset())) by {
            vstd::seq_lib::lemma_multiset_commutative(one, d);
        }
        assert(r.insert(i, cs[i]) =~= cs);
        assert(one =~= Seq::<ChildView>::empty().push(cs[i]));
        assert(cs.to_multiset() =~= r.to_multiset().insert(cs[i]));
        assert(cs.to_multiset() =~= fitting(cs).to_multiset().add(all.to_multiset()));
        let k = fitting(cs);
        assert forall|a: int, b: int| 0 <= a < k.len() && 0 <= b < all.len() implies room_for(#[trigger] k[a]) <= room_for(
            #[trigger] all[b],
        ) by {
            if b == 0 {
                lemma_fitting_members(r, k[a]);
                let m = choose|m: int| 0 <= m < r.len() && r[m] == k[a];
                let n = if m < i { m } else { m + 1 };
                assert(cs[n] == k[a]);
                assert(child_block(cs[n]).len() <= child_block(cs[i]).len());
            } else {
                assert(all[b] == d[b - 1]);
            }
        }
        assert(is_left_of(fitting(cs), cs, all));
        if d.len() > 0 {
            assert(all.last() == d.last());
        } else {
            assert(all.last() == cs[i]);
            assert(d =~= Seq::empty());
            assert(r.to_multiset() =~= k.to_multiset());
            lemma_fitting_same(r);
            lemma_blocks_len_remove(cs, i);
        }
    }
}

proof fn lemma_fitting_same(cs: Seq<ChildView>)
    requires
        fitting(cs).to_multiset() == cs.to_multiset(),
    ensures
        fitting(cs) == cs,
{
    broadcast use vstd::seq_lib::group_to_multiset_ensures;

    lemma_fitting_shorter(cs);
    assert(fitting(cs).to_multiset().len() == fitting(cs).len());
    assert(cs.to_multiset().len() == cs.len());
}

proof fn lemma_fitting_shorter(cs: Seq<ChildView>)
    ensures
        fitting(cs) == cs || fitting(cs).len() < cs.len(),
    decreases cs.len(),
{
    let i = longest(cs);
    if blocks_len(cs) > 30_000 && is_longest(cs, i) {
        lemma_fitting_shorter(cs.remove(i));
    }
}

proof fn lemma_blocks_len_remove(cs: Seq<ChildView>, i: int)
    requires
        0 <= i < cs.len(),
    ensures
        blocks_len(cs) == blocks_len(cs.remove(i)) + child_block(cs[i]).len(),
    decreases cs.len(),
{
    if i == cs.len() - 1 {
        assert(cs.remove(i) =~= cs.drop_last());
    } else {
        lemma_blocks_len_remove(cs.drop_last(), i);
        assert(cs.remove(i).drop_last() =~= cs.drop_last().remove(i));
    }
}

// --- the digest ---

/// What is hashed of the children has a line for every child, its path and its
/// digest, and no other line.
pub proof fn law_digest_covers_every_child(cs: Seq<ChildView>)
    requires
        cs.len() > 0,
        forall|i: int| 0 <= i < cs.len() ==> !(#[trigger] cs[i]).path.contains('\n') && !cs[i].digest.contains('\n'),
    ensures
        split(digest_text(cs), '\n').to_multiset() == cs.map_values(|c: ChildView| c.path + ":"@ + c.digest).to_multiset(),
{
    broadcast use vstd::seq_lib::group_to_multiset_ensures;

    let ls = child_lines(cs);
    let so = sorted(ls);
    let leq = |a: Seq<char>, b: Seq<char>| not_after(a, b);
    crate::order::lemma_not_after_is_total_ordering();
    ls.lemma_sort_by_ensures(leq);
    assert(ls =~= cs.map_values(|c: ChildView| c.path + ":"@ + c.digest));
    assert(so.to_multiset() == ls.to_multiset());
    assert(so.to_multiset().len() == so.len());
    assert(ls.to_multiset().len() == ls.len());
    reveal_strlit(":");
    reveal_strlit("\n");
    assert("\n"@ =~= seq!['\n']);
    assert forall|i: int| 0 <= i < so.len() implies !(#[trigger] so[i]).contains('\n') by {
        let l = so[i];
        assert(so.contains(l));
        assert(so.to_multiset().count(l) > 0);
        assert(ls.contains(l));
        let k = choose|k: int| 0 <= k < ls.len() && ls[k] == l;
        assert(l == cs[k].path + ":"@ + cs[k].digest);
        let p = cs[k].path;
        let g = cs[k].digest;
        assert forall|j: int| 0 <= j < l.len() implies l[j] != '\n' by {
            if j < p.len() {
                assert(l[j] == p[j]);
                assert(p.contains(p[j]));
            } else if j > p.len() {
                assert(l[j] == g[j - p.len() - 1]);
                assert(g.contains(g[j - p.len() - 1]));
            }
        }
    }
    law_join_undone_by_split(so, '\n');
}

/// Two sets of children with the same text to hash have the same lines: no
/// change of a path or a digest goes unseen.
pub proof fn law_digest_text_tells_children_apart(a: Seq<ChildView>, b: Seq<ChildView>)
    requires
        a.len() > 0,
        b.len() > 0,
        forall|i: int| 0 <= i < a.len() ==> !(#[trigger] a[i]).path.contains('\n') && !a[i].digest.contains('\n'),
        forall|i: int| 0 <= i < b.len() ==> !(#[trigger] b[i]).path.contains('\n') && !b[i].digest.contains('\n'),
        digest_text(a) == digest_text(b),
    ensures
        a.map_values(|c: ChildView| c.path + ":"@ + c.digest).to_multiset() == b.map_values(
            |c: ChildView| c.path + ":"@ + c.digest,
        ).to_multiset(),
{
    law_digest_covers_every_child(a);
    law_digest_covers_every_child(b);
}

/// The value of a hexadecimal digit.
pub open spec fn hex_value(c: char) -> int {
    if '0' <= c <= '9' {
        c as int - '0' as int
    } else {
        c as int - 'a' as int + 10
    }
}

/// Two digits for each byte, from which the byte reads back.
pub proof fn law_hex_reads_back(b: Seq<u8>)
    ensures
        hex(b).len() == 2 * b.len(),
        forall|i: int|
            0 <= i < b.len() ==> #[trigger] b[i] as int == 16 * hex_value(hex(b)[2 * i]) + hex_value(hex(b)[2 * i + 1]),
        forall|j: int| 0 <= j < hex(b).len() ==> ('0' <= #[trigger] hex(b)[j] <= '9' || 'a' <= hex(b)[j] <= 'f'),
    decreases b.len(),
{
    if b.len() > 0 {
        let d = b.drop_last();
        law_hex_reads_back(d);
        let h = hex(b);
        assert forall|i: int| 0 <= i < b.len() implies #[trigger] b[i] as int == 16 * hex_value(h[2 * i]) + hex_value(
            h[2 * i + 1],
        ) by {
            if i < d.len() {
                assert(d[i] == b[i]);
                assert(h[2 * i] == hex(d)[2 * i]);
                assert(h[2 * i + 1] == hex(d)[2 * i + 1]);
            }
        }
        assert forall|j: int| 0 <= j < h.len() implies ('0' <= #[trigger] h[j] <= '9' || 'a' <= h[j] <= 'f') by {
            if j < hex(d).len() {
                assert(h[j] == hex(d)[j]);
            }
        }
    }
}

// --- the lead ---

pub proof fn lemma_joined_words(ws: Seq<Seq<char>>)
    requires
        ws.len() > 0,
        forall|i: int| 0 <= i < ws.len() ==> is_word(#[trigger] ws[i]),
    ensures
        join(ws, " "@).len() > 0,
        is_bare(join(ws, " "@)),
        !join(ws, " "@).contains('\n'),
    decreases ws.len(),
{
    reveal_strlit(" ");
    let j = join(ws, " "@);
    assert(is_word(ws[ws.len() - 1]));
    assert(is_word(ws[0]));
    if ws.len() == 1 {
        assert forall|k: int| 0 <= k < j.len() implies j[k] != '\n' by {
            assert(!is_space(ws[0][k]));
        }
    } else {
        let q = ws.drop_last();
        assert forall|i: int| 0 <= i < q.len() implies is_word(#[trigger] q[i]) by {
            assert(q[i] == ws[i]);
        }
        lemma_joined_words(q);
        let a = join(q, " "@);
        let w = ws.last();
        assert(j == a + " "@ + w);
        assert(j[0] == a[0]);
        assert(j.last() == w[w.len() - 1]);
        assert(!is_space(w[w.len() - 1]));
        assert forall|k: int| 0 <= k < j.len() implies j[k] != '\n' by {
            if k < a.len() {
                assert(j[k] == a[k]);
                assert(a.contains(a[k]));
            } else if k > a.len() {
                assert(j[k] == w[k - a.len() - 1]);
                assert(!is_space(w[k - a.len() - 1]));
            }
        }
    }
}

/// A first paragraph that fits is the whole lead, whatever paragraphs follow.
pub proof fn law_short_paragraph_is_the_lead(ws: Seq<Seq<char>>, more: Seq<char>)
    requires
        ws.len() > 0,
        forall|i: int| 0 <= i < ws.len() ==> is_word(#[trigger] ws[i]),
        join(ws, " "@).len() <= 600,
        more.len() > 0,
        trim(more) == more,
    ensures
        lead(join(ws, " "@)) == join(ws, " "@),
        lead(join(ws, " "@) + "\n\n"@ + more) == join(ws, " "@),
{
    let j = join(ws, " "@);
    let brk = "\n\n"@;
    reveal_strlit("\n\n");
    lemma_joined_words(ws);
    law_words_of_joined_words(ws);
    lemma_own_trim_is_bare(more);
    lemma_trim_noop(j);
    assert forall|k: int| 0 <= k < j.len() implies j[k] != '\n' by {
        assert(j.contains(j[k]));
    }
    lemma_find_from(j, brk, 0);
    let e = find(j, brk);
    if e >= 0 {
        assert(j.subrange(e, e + 2)[0] == j[e]);
        assert(brk[0] == '\n');
    }
    assert(split_on(j, brk)[0] == j);
    let t = j + brk + more;
    assert(t[0] == j[0]);
    assert(t.last() == more.last());
    lemma_trim_noop(t);
    let n = j.len() as int;
    assert(t.subrange(n, n + 2) =~= brk);
    assert(occurs_at(t, brk, n));
    assert forall|k: int| 0 <= k < n implies !occurs_at(t, brk, k) by {
        if occurs_at(t, brk, k) {
            assert(t.subrange(k, k + 2)[0] == t[k]);
            assert(t[k] == j[k]);
            assert(brk[0] == '\n');
        }
    }
    lemma_find_is(t, brk, n);
    assert(t.take(n) =~= j);
    assert(split_on(t, brk)[0] == j);
}

proof fn lemma_last_stop_is_last(s: Seq<char>, n: int)
    requires
        0 <= n <= s.len(),
    ensures
        ({
            let k = last_stop(s, n);
            &&& 0 <= k <= n
            &&& k > 0 ==> ends_sentence(s, k)
            &&& forall|m: int| k < m <= n ==> !#[trigger] ends_sentence(s, m)
        }),
    decreases n,
{
    if n > 0 && !ends_sentence(s, n) {
        lemma_last_stop_is_last(s, n - 1);
    }
}

/// Whether a sentence ends with the first `n` characters: with a stop that
/// has a space or nothing behind it.
pub open spec fn ends_sentence(s: Seq<char>, n: int) -> bool {
    0 < n <= s.len() && (s[n - 1] == '.' || s[n - 1] == '!' || s[n - 1] == '?') && (n == s.len() || s[n] == ' ')
}

/// The lead of a long paragraph is what its first 600 characters hold up to
/// the end of the last sentence there; where no sentence ends there, it is
/// words from its beginning and an ellipsis.
pub proof fn law_long_paragraph_is_cut(para: Seq<char>)
    requires
        join(words(para), " "@).len() > 600,
    ensures
        ({
            let c = join(words(para), " "@).take(600);
            let l = capped(para);
            ||| ends_sentence(c, l.len() as int) && l == c.take(l.len() as int) && forall|m: int|
                l.len() < m <= 600 ==> !#[trigger] ends_sentence(c, m)
            ||| (forall|m: int| 0 < m <= 600 ==> !#[trigger] ends_sentence(c, m)) && exists|k: int|
                0 <= k <= 599 && l == #[trigger] trim_end(c.take(k)) + "\u{2026}"@ && (k == 599 || c[k] == ' ')
        }),
{
    let w = join(words(para), " "@);
    let c = w.take(600);
    lemma_last_stop_is_last(c, 600);
    let k = last_stop(c, 600);
    if k > 0 {
        assert(capped(para) == c.take(k));
    } else {
        let b = w.take(599);
        reveal_strlit(" ");
        crate::text::lemma_rfind_upto(b, " "@, b.len() - 1);
        let e = rfind(b, " "@);
        if e >= 0 {
            assert(b.subrange(e, e + 1)[0] == b[e]);
            assert(b.take(e) =~= c.take(e));
            assert(c[e] == ' ');
            assert(capped(para) == trim_end(c.take(e)) + "\u{2026}"@);
        } else {
            assert(b =~= c.take(599));
            assert(capped(para) == trim_end(c.take(599)) + "\u{2026}"@);
        }
    }
}

/// The memory of a summary names the project, and the directory unless it is
/// the repository, holds the summary's lead and says where the whole is found.
pub proof fn law_mirror_says_whose_it_is(project: Seq<char>, dir: Seq<char>, text: Seq<char>)
    ensures
        starts_with(mirror(project, dir, "repo"@, text), project + " architecture: "@ + lead(text)),
        starts_with(mirror(project, dir, "module"@, text), project + " "@ + dir + ": "@ + lead(text)),
        ends_with(mirror(project, dir, "repo"@, text), " \u{2026} overview "@ + dir + ")"@),
        ends_with(mirror(project, dir, "module"@, text), " \u{2026} overview "@ + dir + ")"@),
{
    reveal_strlit("repo");
    reveal_strlit("module");
    assert("module"@.len() == 6 && "repo"@.len() == 4);
    let a = mirror(project, dir, "repo"@, text);
    let b = mirror(project, dir, "module"@, text);
    let pa = project + " architecture: "@ + lead(text);
    let pb = project + " "@ + dir + ": "@ + lead(text);
    let t = " \u{2026} overview "@ + dir + ")"@;
    assert(a.take(pa.len() as int) =~= pa);
    assert(b.take(pb.len() as int) =~= pb);
    assert(a.skip(a.len() - t.len()) =~= t);
    assert(b.skip(b.len() - t.len()) =~= t);
}

} // verus!
