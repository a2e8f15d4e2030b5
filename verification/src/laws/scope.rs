//! Laws of the scope pass: which directories are asked about, how the reply is
//! read, and what becomes of a verdict.

use vstd::prelude::*;

use crate::code_index::rows::{DirStat, FileView, ScopeView};
use crate::code_index::scope::{
    decides, doc_blocks, effective, excerpts, first_component, governing_category, guarded, has_files_under,
    lemma_trim_noop, law_category_token_reads_back, law_one_row_decides, named_dir, notices, is_notice, owning,
    parse_category, pass_memories, row_for, scope_due, scope_line, scope_lines, scope_prompt, stale_scopes, stat_lines,
    verdict_of, verdict_on, Category, SCOPE_PROMPT_HEAD, SCOPE_PROMPT_TAIL,
};
use crate::code_index::secrets::secret_label;
use crate::laws::text::{
    all_space, is_bare, law_lines_append, law_one_line, law_trim_of_padded, lemma_own_trim_is_bare, lemma_stands_between,
    lemma_stands_in_part,
};
use crate::letters::{ascii_lower, ascii_lower_all, starts_with_letters};
use crate::numeral::dec;
use crate::text::{
    contains, find, find_char, is_space, join, lemma_find_char, lemma_find_from, lemma_find_is, lines, occurs_at,
    starts_with, texts, trim,
};

verus! {

// --- the reply ---

/// Whether `t` is a spelling of the category's token: the token in any case,
/// where it has a hyphen also with an underscore or without.
pub open spec fn spells(t: Seq<char>, c: Category) -> bool {
    ||| ascii_lower_all(t) == c.token()
    ||| c == Category::BuildOutput && (ascii_lower_all(t) == "build_output"@ || ascii_lower_all(t) == "buildoutput"@)
}

/// Whether a text can stand as a directory before the colon of a reply line.
pub open spec fn is_line_dir(d: Seq<char>) -> bool {
    d.len() > 0 && trim(d) == d && !d.contains(':') && !d.contains('\n')
}

proof fn lemma_spelling(t: Seq<char>, c: Category)
    requires
        spells(t, c),
    ensures
        t.len() > 0,
        is_bare(t),
        trim(t) == t,
        parse_category(t) == Some(c),
        forall|j: int| 0 <= j < t.len() ==> #[trigger] t[j] != ' ' && t[j] != '\n' && t[j] != ':' && !is_space(t[j]),
{
    reveal_strlit("product");
    reveal_strlit("tests");
    reveal_strlit("docs");
    reveal_strlit("vendored");
    reveal_strlit("generated");
    reveal_strlit("assets");
    reveal_strlit("build-output");
    reveal_strlit("build_output");
    reveal_strlit("buildoutput");
    let k = ascii_lower_all(t);
    assert(k.len() > 0);
    assert(ascii_lower_all(t).len() == t.len());
    assert forall|j: int| 0 <= j < t.len() implies #[trigger] t[j] != ' ' && t[j] != '\n' && t[j] != ':' && !is_space(t[j]) by {
        assert(ascii_lower_all(t)[j] == ascii_lower(t[j]));
        assert(k[j] == ascii_lower(t[j]));
        assert('a' <= k[j] <= 'z' || k[j] == '-' || k[j] == '_');
    }
    assert(!is_space(t[0]));
    assert(!is_space(t[t.len() - 1]));
    lemma_trim_noop(t);
    law_category_token_reads_back(c);
    lemma_trim_noop(k);
    assert(ascii_lower_all(k) =~= k);
}

/// A line of a directory, a colon and a rest.
proof fn lemma_stated(d: Seq<char>, v: Seq<char>, s: Seq<Seq<char>>, line: Seq<char>)
    requires
        is_line_dir(d),
        s.len() == 4,
        forall|i: int| 0 <= i < 4 ==> all_space(#[trigger] s[i]),
        is_bare(v),
        v.len() > 0,
        line == s[0] + d + s[1] + ":"@ + s[2] + v + s[3],
    ensures
        scope_line(line) == (match verdict_of(v) {
            Some(x) => Some((d, x)),
            None => None,
        }),
{
    reveal_strlit(":");
    let core = d + s[1] + ":"@ + s[2] + v;
    lemma_own_trim_is_bare(d);
    assert(core[0] == d[0]);
    assert(core.last() == v.last());
    assert(line =~= s[0] + core + s[3]);
    law_trim_of_padded(s[0], core, s[3]);
    assert(trim(line) == core);
    let k = (d.len() + s[1].len()) as int;
    assert(core[k] == ':');
    assert(all_space(s[1]));
    assert forall|j: int| 0 <= j < k implies core[j] != ':' by {
        if j < d.len() {
            assert(core[j] == d[j]);
            assert(d.contains(d[j]));
        } else {
            assert(core[j] == s[1][j - d.len()]);
            assert(is_space(s[1][j - d.len()]));
        }
    }
    lemma_find_char(core, ':');
    assert(find_char(core, ':') == k);
    let none: Seq<char> = Seq::empty();
    assert(core.take(k) =~= none + d + s[1]);
    law_trim_of_padded(none, d, s[1]);
    assert(core.skip(k + 1) =~= s[2] + v + none);
    law_trim_of_padded(s[2], v, none);
}

proof fn lemma_plain_verdict(t: Seq<char>, c: Category)
    requires
        spells(t, c),
    ensures
        verdict_of(t) == Some((c, None::<Seq<char>>)),
{
    let dash = " \u{2014} "@;
    reveal_strlit(" \u{2014} ");
    lemma_spelling(t, c);
    lemma_find_from(t, dash, 0);
    let e = find(t, dash);
    if e >= 0 {
        assert(occurs_at(t, dash, e));
        assert(t.subrange(e, e + 3)[0] == t[e]);
        assert(dash[0] == ' ');
    }
}

proof fn lemma_described_verdict(t: Seq<char>, c: Category, what: Seq<char>)
    requires
        spells(t, c),
        what.len() > 0,
        trim(what) == what,
    ensures
        verdict_of(t + " \u{2014} "@ + what) == Some((c, Some(what))),
{
    let dash = " \u{2014} "@;
    reveal_strlit(" \u{2014} ");
    lemma_spelling(t, c);
    let v = t + dash + what;
    let n = t.len() as int;
    assert(v.subrange(n, n + 3) =~= dash);
    assert(occurs_at(v, dash, n));
    assert forall|j: int| 0 <= j < n implies !occurs_at(v, dash, j) by {
        if occurs_at(v, dash, j) {
            assert(v.subrange(j, j + 3)[0] == v[j]);
            assert(v[j] == t[j]);
            assert(dash[0] == ' ');
        }
    }
    lemma_find_is(v, dash, n);
    assert(v.take(n) =~= t);
    assert(v.skip(n + 3) =~= what);
}

/// Whether a reply line says of the directory `d` that it is of category `c`:
/// it is the directory, a colon and a spelling of the category, and perhaps a
/// dash and a description, with white space where it may stand.
pub open spec fn says(line: Seq<char>, d: Seq<char>, c: Category) -> bool {
    exists|s: Seq<Seq<char>>, t: Seq<char>, v: Seq<char>| #[trigger]
        saying(line, d, c, s, t, v)
}

/// The parts of such a line: the white space, the spelling, and what stands
/// behind the colon.
pub open spec fn saying(line: Seq<char>, d: Seq<char>, c: Category, s: Seq<Seq<char>>, t: Seq<char>, v: Seq<char>) -> bool {
    &&& s.len() == 4
    &&& forall|i: int| 0 <= i < 4 ==> all_space(#[trigger] s[i])
    &&& spells(t, c)
    &&& v == t || exists|what: Seq<char>| what.len() > 0 && trim(what) == what && v == #[trigger] (t + " \u{2014} "@ + what)
    &&& line == s[0] + d + s[1] + ":"@ + s[2] + v + s[3]
}

proof fn lemma_says(line: Seq<char>, d: Seq<char>, c: Category)
    requires
        is_line_dir(d),
        says(line, d, c),
    ensures
        scope_line(line) is Some,
        (scope_line(line)->0).0 == d,
        (scope_line(line)->0).1.0 == c,
{
    let (s, t, v) = choose|s: Seq<Seq<char>>, t: Seq<char>, v: Seq<char>| #[trigger] saying(line, d, c, s, t, v);
    lemma_spelling(t, c);
    if v == t {
        lemma_plain_verdict(t, c);
    } else {
        let what = choose|what: Seq<char>|
            what.len() > 0 && trim(what) == what && v == #[trigger] (t + " \u{2014} "@ + what);
        lemma_described_verdict(t, c, what);
        lemma_own_trim_is_bare(what);
        assert(v[0] == t[0]);
        assert(v.last() == what.last());
    }
    lemma_stated(d, v, s, line);
}

/// A line gives its directory the category that it spells, whatever lines came
/// before, and leaves the other directories as they were.
pub proof fn law_scope_reply_reads_back(before: Seq<char>, d: Seq<char>, c: Category, what: Seq<char>)
    requires
        before.len() > 0 ==> before.last() == '\n',
        is_line_dir(d),
        what.len() > 0,
        trim(what) == what,
        !what.contains('\n'),
    ensures
        scope_lines(lines(before + (d + ": "@ + c.token()))) == scope_lines(lines(before)).insert(d, (c, None)),
        scope_lines(lines(before + (d + ": "@ + c.token() + " \u{2014} "@ + what))) == scope_lines(lines(before)).insert(
            d,
            (c, Some(what)),
        ),
{
    let none: Seq<char> = Seq::empty();
    let sp = seq![' '];
    let s = seq![none, none, sp, none];
    let t = c.token();
    reveal_strlit(": ");
    reveal_strlit(":");
    reveal_strlit(" \u{2014} ");
    law_category_token_reads_back(c);
    assert(spells(t, c)) by {
        reveal_strlit("product");
        reveal_strlit("tests");
        reveal_strlit("docs");
        reveal_strlit("vendored");
        reveal_strlit("generated");
        reveal_strlit("assets");
        reveal_strlit("build-output");
        assert(ascii_lower_all(t) =~= t);
    }
    assert forall|i: int| 0 <= i < 4 implies all_space(#[trigger] s[i]) by {}
    lemma_spelling(t, c);
    lemma_plain_verdict(t, c);
    lemma_described_verdict(t, c, what);
    lemma_own_trim_is_bare(what);
    let v = t + " \u{2014} "@ + what;
    assert(v[0] == t[0]);
    assert(v.last() == what.last());
    let a = d + ": "@ + t;
    let b = d + ": "@ + t + " \u{2014} "@ + what;
    assert(a =~= s[0] + d + s[1] + ":"@ + s[2] + t + s[3]);
    assert(b =~= s[0] + d + s[1] + ":"@ + s[2] + v + s[3]);
    lemma_stated(d, t, s, a);
    lemma_stated(d, v, s, b);
    assert forall|j: int| 0 <= j < b.len() implies b[j] != '\n' by {
        let n = d.len() as int;
        let m = t.len() as int;
        if j < n {
            assert(b[j] == d[j]);
            assert(d.contains(d[j]));
        } else if n + 2 <= j < n + 2 + m {
            assert(b[j] == t[j - n - 2]);
        } else if j >= n + m + 5 {
            assert(b[j] == what[j - n - m - 5]);
            assert(what.contains(what[j - n - m - 5]));
        }
    }
    assert forall|j: int| 0 <= j < a.len() implies a[j] != '\n' by {
        assert(a[j] == b[j]);
    }
    law_one_line(a);
    law_one_line(b);
    law_lines_append(before, a);
    law_lines_append(before, b);
    assert(lines(before + a).drop_last() =~= lines(before));
    assert(lines(before + b).drop_last() =~= lines(before));
}

proof fn lemma_later_lines(ls: Seq<Seq<char>>, d: Seq<char>, i: int)
    requires
        0 <= i < ls.len(),
        scope_line(ls[i]) is Some,
        (scope_line(ls[i])->0).0 == d,
        forall|j: int| i < j < ls.len() ==> !(scope_line(#[trigger] ls[j]) is Some && (scope_line(ls[j])->0).0 == d),
    ensures
        scope_lines(ls).contains_key(d),
        scope_lines(ls)[d] == (scope_line(ls[i])->0).1,
    decreases ls.len(),
{
    if i < ls.len() - 1 {
        let p = ls.drop_last();
        assert forall|j: int| i < j < p.len() implies !(scope_line(#[trigger] p[j]) is Some && (scope_line(p[j])->0).0 == d) by {
            assert(p[j] == ls[j]);
        }
        lemma_later_lines(p, d, i);
        assert(ls[ls.len() - 1] == ls.last());
    }
}

proof fn lemma_no_line(ls: Seq<Seq<char>>, d: Seq<char>)
    requires
        forall|j: int| 0 <= j < ls.len() ==> !(scope_line(#[trigger] ls[j]) is Some && (scope_line(ls[j])->0).0 == d),
    ensures
        !scope_lines(ls).contains_key(d),
    decreases ls.len(),
{
    if ls.len() > 0 {
        let p = ls.drop_last();
        assert forall|j: int| 0 <= j < p.len() implies !(scope_line(#[trigger] p[j]) is Some && (scope_line(p[j])->0).0 == d) by {
            assert(p[j] == ls[j]);
        }
        lemma_no_line(p, d);
        assert(ls[ls.len() - 1] == ls.last());
    }
}

/// Whether a line states a verdict on the directory: it is the directory, a
/// colon, and something that a category can be read of.
pub open spec fn states_on(line: Seq<char>, d: Seq<char>) -> bool {
    scope_line(line) is Some && (scope_line(line)->0).0 == d
}

/// The last line that says a category of a directory decides: whatever it is,
/// the pass gives the directory that category.
pub proof fn law_last_line_decides(reply: Seq<char>, d: Seq<char>, c: Category, i: int)
    requires
        is_line_dir(d),
        0 <= i < lines(reply).len(),
        says(lines(reply)[i], d, c),
        forall|j: int| i < j < lines(reply).len() ==> !states_on(#[trigger] lines(reply)[j], d),
    ensures
        verdict_on(scope_lines(lines(reply)), d).0 == c,
{
    lemma_says(lines(reply)[i], d, c);
    lemma_later_lines(lines(reply), d, i);
}

/// What the last line that states a verdict on a directory says, the pass
/// keeps; a directory on which no line states one is product code.
pub proof fn law_stated_verdict_is_kept(reply: Seq<char>, d: Seq<char>)
    ensures
        forall|i: int|
            0 <= i < lines(reply).len() && states_on(#[trigger] lines(reply)[i], d) && (forall|j: int|
                i < j < lines(reply).len() ==> !states_on(#[trigger] lines(reply)[j], d)) ==> verdict_on(
                scope_lines(lines(reply)),
                d,
            ) == (scope_line(lines(reply)[i])->0).1,
        (forall|j: int| 0 <= j < lines(reply).len() ==> !states_on(#[trigger] lines(reply)[j], d)) ==> verdict_on(
            scope_lines(lines(reply)),
            d,
        ) == (Category::Product, None::<Seq<char>>),
{
    let ls = lines(reply);
    assert forall|i: int|
        0 <= i < ls.len() && states_on(#[trigger] ls[i], d) && (forall|j: int|
            i < j < ls.len() ==> !states_on(#[trigger] ls[j], d)) implies verdict_on(scope_lines(ls), d) == (scope_line(
        ls[i],
    )->0).1 by {
        assert forall|j: int| i < j < ls.len() implies !(scope_line(#[trigger] ls[j]) is Some && (scope_line(ls[j])->0).0 == d) by {
            assert(!states_on(ls[j], d));
        }
        lemma_later_lines(ls, d, i);
    }
    if forall|j: int| 0 <= j < ls.len() ==> !states_on(#[trigger] ls[j], d) {
        assert forall|j: int| 0 <= j < ls.len() implies !(scope_line(#[trigger] ls[j]) is Some && (scope_line(ls[j])->0).0 == d) by {
            assert(!states_on(ls[j], d));
        }
        lemma_no_line(ls, d);
    }
}

// --- which directory decides ---

/// The longest directory that a path lies in decides its category; where the
/// path lies in none, it is product code.
pub proof fn law_longest_directory_decides(rows: Seq<ScopeView>, path: Seq<char>, i: int)
    ensures
        0 <= i < rows.len() && (rows[i].dir == path || starts_with(path, rows[i].dir + "/"@)) && (forall|j: int|
            0 <= j < rows.len() && j != i && ((#[trigger] rows[j]).dir == path || starts_with(path, rows[j].dir + "/"@))
                ==> rows[j].dir.len() < rows[i].dir.len()) ==> owning(rows, path) == Some(rows[i].dir) && governing_category(
            rows,
            path,
        ) == (match parse_category(rows[i].category) {
            Some(c) => c,
            None => Category::Product,
        }),
        (forall|j: int|
            0 <= j < rows.len() ==> (#[trigger] rows[j]).dir != path && !starts_with(path, rows[j].dir + "/"@)) ==> owning(
            rows,
            path,
        ) is None && governing_category(rows, path) == Category::Product,
{
    reveal_strlit("/");
    assert forall|d: Seq<char>| #[trigger] d.push('/') == d + "/"@ by {
        assert(d.push('/') =~= d + "/"@);
    }
    law_one_row_decides(rows, path);
    if 0 <= i < rows.len() && (rows[i].dir == path || starts_with(path, rows[i].dir + "/"@)) && (forall|j: int|
        0 <= j < rows.len() && j != i && ((#[trigger] rows[j]).dir == path || starts_with(path, rows[j].dir + "/"@))
            ==> rows[j].dir.len() < rows[i].dir.len()) {
        assert(rows[i].dir.push('/') == rows[i].dir + "/"@);
        assert forall|j: int| 0 <= j < rows.len() && crate::code_index::scope::owns(#[trigger] rows[j].dir, path) implies rows[j].dir.len()
            < rows[i].dir.len() || (rows[j].dir.len() == rows[i].dir.len() && i <= j) by {
            assert(rows[j].dir.push('/') == rows[j].dir + "/"@);
            if j != i {
                assert(rows[j].dir == path || starts_with(path, rows[j].dir + "/"@));
            }
        }
        assert(decides(rows, path, i));
    }
    if forall|j: int| 0 <= j < rows.len() ==> (#[trigger] rows[j]).dir != path && !starts_with(path, rows[j].dir + "/"@) {
        assert forall|j: int| 0 <= j < rows.len() implies !crate::code_index::scope::owns(#[trigger] rows[j].dir, path) by {
            assert(rows[j].dir.push('/') == rows[j].dir + "/"@);
            assert(rows[j].dir != path);
        }
    }
}

// --- what goes in, what comes out ---

/// The guard lets every file through that is neither ignored nor binary, and
/// no other, in their order.
pub proof fn law_guard_keeps_the_rest(files: Seq<FileView>, ignored: Seq<Seq<char>>, binary: Seq<Seq<char>>)
    ensures
        guarded(files, ignored, binary) == files.filter(|f: FileView| !ignored.contains(f.path) && !binary.contains(f.blob)),
    decreases files.len(),
{
    reveal(Seq::filter);
    if files.len() > 0 {
        law_guard_keeps_the_rest(files.drop_last(), ignored, binary);
    }
}

/// Whether some decision is on the directory or on one that lies in it.
pub open spec fn has_decision_in(rows: Seq<ScopeView>, top: Seq<char>) -> bool {
    exists|j: int| 0 <= j < rows.len() && ((#[trigger] rows[j]).dir == top || starts_with(rows[j].dir, top + "/"@))
}

/// A pass is due where nothing was decided yet, or where some top-level
/// directory neither has a decision nor holds a directory that has one.
pub proof fn law_pass_is_due_for_a_new_directory(rows: Seq<ScopeView>, tops: Seq<Seq<char>>)
    requires
        forall|i: int| 0 <= i < tops.len() ==> !(#[trigger] tops[i]).contains('/'),
    ensures
        scope_due(rows, tops) <==> rows.len() == 0 || exists|i: int|
            0 <= i < tops.len() && !has_decision_in(rows, #[trigger] tops[i]),
{
    assert forall|i: int| 0 <= i < tops.len() implies has_decision_in(rows, #[trigger] tops[i])
        == crate::code_index::scope::covered(rows, tops[i]) by {
        assert forall|j: int| 0 <= j < rows.len() implies (first_component((#[trigger] rows[j]).dir) == tops[i] <==> rows[j].dir
            == tops[i] || starts_with(rows[j].dir, tops[i] + "/"@)) by {
            lemma_first_component(rows[j].dir, tops[i]);
        }
    }
}

/// The first component of a path is the directory that the path is or lies in.
pub proof fn lemma_first_component(path: Seq<char>, top: Seq<char>)
    requires
        !top.contains('/'),
    ensures
        first_component(path) == top <==> path == top || starts_with(path, top + "/"@),
{
    reveal_strlit("/");
    lemma_find_char(path, '/');
    let k = find_char(path, '/');
    let n = top.len() as int;
    assert forall|j: int| 0 <= j < n implies top[j] != '/' by {
        assert(top.contains(top[j]));
    }
    if k < path.len() {
        assert(first_component(path) == path.take(k));
        if path.take(k) == top {
            assert(path.take(k + 1) =~= top + "/"@);
        }
        if path == top {
            assert(top[k] == '/');
        }
        if starts_with(path, top + "/"@) {
            let h = path.take(n + 1);
            assert(h == top + "/"@);
            assert(path[n] == h[n]);
            if k < n {
                assert(path[k] == h[k]);
                assert(h[k] == top[k]);
            }
            assert(k == n);
            assert(path.take(k) =~= h.take(k));
            assert(h.take(n) =~= top);
        }
    } else {
        assert(first_component(path) == path);
        if starts_with(path, top + "/"@) {
            let h = path.take(n + 1);
            assert(path[n] == h[n]);
            assert(path.contains(path[n]));
        }
    }
}

/// The decisions that are dropped are those of the model, not the user's, for
/// the directories that hold no tracked file any more.
pub proof fn law_only_the_models_dead_decisions_go(rows: Seq<ScopeView>, files: Seq<FileView>)
    ensures
        stale_scopes(rows, files) == rows.filter(
            |r: ScopeView|
                r.source == "llm"@ && forall|k: int|
                    0 <= k < files.len() ==> !starts_with((#[trigger] files[k]).path, r.dir + "/"@),
        ).map_values(|r: ScopeView| r.dir),
    decreases rows.len(),
{
    reveal(Seq::filter);
    let keep = |r: ScopeView|
        r.source == "llm"@ && forall|k: int| 0 <= k < files.len() ==> !starts_with((#[trigger] files[k]).path, r.dir + "/"@);
    let to_dir = |r: ScopeView| r.dir;
    if rows.len() > 0 {
        law_only_the_models_dead_decisions_go(rows.drop_last(), files);
        reveal_strlit("/");
        let r = rows.last();
        assert(r.dir.push('/') =~= r.dir + "/"@);
        assert(keep(r) == (r.source == "llm"@ && !has_files_under(files, r.dir)));
        let f = rows.drop_last().filter(keep);
        assert(f.push(r).map_values(to_dir) =~= f.map_values(to_dir).push(r.dir));
    } else {
        assert(stale_scopes(rows, files) =~= rows.filter(keep).map_values(to_dir));
    }
}

/// A directory is named by its path, with or without slashes behind it and
/// white space around it.
pub proof fn law_named_directory(a: Seq<char>, d: Seq<char>, slashes: nat, b: Seq<char>)
    requires
        all_space(a),
        all_space(b),
        d.len() > 0,
        trim(d) == d,
        d.last() != '/',
    ensures
        named_dir(a + (d + Seq::new(slashes, |i: int| '/')) + b) == d,
{
    let s = Seq::new(slashes, |i: int| '/');
    lemma_own_trim_is_bare(d);
    let core = d + s;
    assert(core[0] == d[0]);
    if slashes > 0 {
        assert(core.last() == '/');
    } else {
        assert(core =~= d);
    }
    law_trim_of_padded(a, core, b);
    lemma_slashes_off(d, slashes);
}

proof fn lemma_slashes_off(d: Seq<char>, n: nat)
    requires
        d.len() > 0,
        d.last() != '/',
    ensures
        crate::text::trim_end_of(d + Seq::new(n, |i: int| '/'), '/', '/') == d,
    decreases n,
{
    let s = Seq::new(n, |i: int| '/');
    if n > 0 {
        lemma_slashes_off(d, (n - 1) as nat);
        assert((d + s).last() == '/');
        assert((d + s).drop_last() =~= d + Seq::new((n - 1) as nat, |i: int| '/'));
    } else {
        assert(d + s =~= d);
    }
}

/// The notices are the license and readme files among the paths, all of them.
pub proof fn law_notices_are_the_named_files(paths: Seq<Seq<char>>)
    ensures
        notices(paths) == paths.filter(|p: Seq<char>| is_notice(p)),
    decreases paths.len(),
{
    reveal(Seq::filter);
    if paths.len() > 0 {
        law_notices_are_the_named_files(paths.drop_last());
    }
}

/// A file is a notice where its name begins with one of the three words, in any
/// case, whatever directory it lies in.
pub proof fn law_what_a_notice_is(d: Seq<char>, base: Seq<char>)
    requires
        !base.contains('/'),
    ensures
        is_notice(base) <==> starts_with_letters(base, "LICENSE"@) || starts_with_letters(base, "LICENCE"@)
            || starts_with_letters(base, "README"@),
        is_notice(d + "/"@ + base) == is_notice(base),
{
    crate::laws::secrets::lemma_last_component(d, base);
}

/// The first lines of a text, forty at most.
pub open spec fn first_lines(text: Seq<char>) -> Seq<char> {
    join(lines(text).take(if lines(text).len() < 40 { lines(text).len() as int } else { 40 }), "\n"@)
}

/// Every notice that carries no secret is shown with its first lines; one that
/// does is not shown at all.
pub proof fn law_excerpts_leave_out_only_secrets(files: Seq<(Seq<char>, Seq<char>)>)
    ensures
        excerpts(files) == files.filter(|f: (Seq<char>, Seq<char>)| secret_label(f.0, f.1) is None).map_values(
            |f: (Seq<char>, Seq<char>)| (f.0, first_lines(f.1)),
        ),
    decreases files.len(),
{
    reveal(Seq::filter);
    let keep = |f: (Seq<char>, Seq<char>)| secret_label(f.0, f.1) is None;
    let show = |f: (Seq<char>, Seq<char>)| (f.0, first_lines(f.1));
    if files.len() > 0 {
        law_excerpts_leave_out_only_secrets(files.drop_last());
        let f = files.last();
        let g = files.drop_last().filter(keep);
        let ls = lines(f.1);
        if ls.len() <= 40 {
            assert(ls.take(ls.len() as int) =~= ls);
        }
        assert(crate::code_index::scope::excerpt(f.1) == first_lines(f.1));
        assert(g.push(f).map_values(show) =~= g.map_values(show).push(show(f)));
    } else {
        assert(excerpts(files) =~= files.filter(keep).map_values(show));
    }
}

proof fn lemma_stat_lines_hold(stats: Seq<DirStat>, i: int)
    requires
        0 <= i < stats.len(),
    ensures
        contains(stat_lines(stats), shown_stat(stats[i])),
    decreases stats.len(),
{
    let none: Seq<char> = Seq::empty();
    let p = stat_lines(stats.drop_last());
    let l = shown_stat(stats.last());
    assert(stat_lines(stats) =~= p + l + none);
    if i == stats.len() - 1 {
        lemma_stands_between(p, l, none);
    } else {
        lemma_stat_lines_hold(stats.drop_last(), i);
        assert(stat_lines(stats) =~= none + p + l);
        lemma_stands_in_part(none, p, l, shown_stat(stats[i]));
    }
}

proof fn lemma_doc_blocks_hold(docs: Seq<(Seq<char>, Seq<char>)>, i: int)
    requires
        0 <= i < docs.len(),
    ensures
        contains(doc_blocks(docs), shown_doc(docs[i])),
    decreases docs.len(),
{
    let none: Seq<char> = Seq::empty();
    let p = doc_blocks(docs.drop_last());
    let l = shown_doc(docs.last());
    assert(doc_blocks(docs) =~= p + l + none);
    if i == docs.len() - 1 {
        lemma_stands_between(p, l, none);
    } else {
        lemma_doc_blocks_hold(docs.drop_last(), i);
        assert(doc_blocks(docs) =~= none + p + l);
        lemma_stands_in_part(none, p, l, shown_doc(docs[i]));
    }
}

/// What the prompt shows of a directory.
pub open spec fn shown_stat(s: DirStat) -> Seq<char> {
    s.dir@ + ": files="@ + dec(s.files as int) + " lines="@ + dec(s.lines as int) + " commits="@ + dec(s.commits as int)
        + " authors="@ + join(texts(s.authors@), ","@) + " first_added="@ + s.first_added@ + "\n"@
}

/// What the prompt shows of an excerpt.
pub open spec fn shown_doc(d: (Seq<char>, Seq<char>)) -> Seq<char> {
    "\n--- "@ + d.0 + " ---\n"@ + d.1 + "\n"@
}

/// The scope prompt shows every directory with its evidence and every excerpt
/// with its path.
pub proof fn law_scope_prompt_holds_all_evidence(stats: Seq<DirStat>, docs: Seq<(Seq<char>, Seq<char>)>)
    ensures
        forall|i: int| 0 <= i < stats.len() ==> contains(scope_prompt(stats, docs), shown_stat(#[trigger] stats[i])),
        forall|i: int| 0 <= i < docs.len() ==> contains(scope_prompt(stats, docs), shown_doc(#[trigger] docs[i])),
{
    let all = scope_prompt(stats, docs);
    let middle = if docs.len() == 0 {
        Seq::empty()
    } else {
        "\nLICENSE/README excerpts (first 40 lines each):\n"@ + doc_blocks(docs)
    };
    assert forall|i: int| 0 <= i < stats.len() implies contains(all, shown_stat(#[trigger] stats[i])) by {
        lemma_stat_lines_hold(stats, i);
        assert(all =~= SCOPE_PROMPT_HEAD@ + stat_lines(stats) + (middle + SCOPE_PROMPT_TAIL@));
        lemma_stands_in_part(SCOPE_PROMPT_HEAD@, stat_lines(stats), middle + SCOPE_PROMPT_TAIL@, shown_stat(stats[i]));
    }
    assert forall|i: int| 0 <= i < docs.len() implies contains(all, shown_doc(#[trigger] docs[i])) by {
        lemma_doc_blocks_hold(docs, i);
        let front = SCOPE_PROMPT_HEAD@ + stat_lines(stats) + "\nLICENSE/README excerpts (first 40 lines each):\n"@;
        assert(all =~= front + doc_blocks(docs) + SCOPE_PROMPT_TAIL@);
        lemma_stands_in_part(front, doc_blocks(docs), SCOPE_PROMPT_TAIL@, shown_doc(docs[i]));
    }
}

// --- what a verdict comes to ---

/// A verdict takes effect unless the last decision on the directory is the
/// user's, which then stands.
pub proof fn law_verdict_takes_effect(rows: Seq<ScopeView>, dir: Seq<char>, v: Category, i: int)
    ensures
        (forall|j: int| 0 <= j < rows.len() ==> (#[trigger] rows[j]).dir != dir || rows[j].source != "user"@) ==> effective(
            rows,
            dir,
            v,
        ) == v,
        0 <= i < rows.len() && rows[i].dir == dir && rows[i].source == "user"@ && (forall|j: int|
            i < j < rows.len() ==> (#[trigger] rows[j]).dir != dir) ==> effective(rows, dir, v) == (match parse_category(
            rows[i].category,
        ) {
            Some(c) => c,
            None => Category::Product,
        }),
    decreases rows.len(),
{
    if rows.len() > 0 {
        let p = rows.drop_last();
        law_verdict_takes_effect(p, dir, v, i);
        assert(rows[rows.len() - 1] == rows.last());
        if rows.last().dir != dir {
            assert(row_for(rows, dir) == row_for(p, dir));
            if forall|j: int| 0 <= j < rows.len() ==> (#[trigger] rows[j]).dir != dir || rows[j].source != "user"@ {
                assert forall|j: int| 0 <= j < p.len() implies (#[trigger] p[j]).dir != dir || p[j].source != "user"@ by {
                    assert(p[j] == rows[j]);
                }
            }
            if 0 <= i < rows.len() && rows[i].dir == dir && rows[i].source == "user"@ && (forall|j: int|
                i < j < rows.len() ==> (#[trigger] rows[j]).dir != dir) {
                assert(p[i] == rows[i]);
                assert forall|j: int| i < j < p.len() implies (#[trigger] p[j]).dir != dir by {
                    assert(p[j] == rows[j]);
                }
            }
        } else {
            if forall|j: int| 0 <= j < rows.len() ==> (#[trigger] rows[j]).dir != dir || rows[j].source != "user"@ {
                assert(rows[rows.len() - 1].dir == dir);
            }
            if 0 <= i < rows.len() - 1 && (forall|j: int| i < j < rows.len() ==> (#[trigger] rows[j]).dir != dir) {
                assert(rows[rows.len() - 1].dir != dir);
            }
        }
    }
}

/// Every directory of the pass that is in effect vendored earns a memory, with
/// what the reply says it vendors, and no other directory earns one.
pub proof fn law_each_vendored_directory_earns_a_memory(
    dirs: Seq<Seq<char>>,
    verdicts: Map<Seq<char>, (Category, Option<Seq<char>>)>,
    existing: Seq<ScopeView>,
    project: Seq<char>,
)
    ensures
        pass_memories(dirs, verdicts, existing, project) == dirs.filter(
            |d: Seq<char>| effective(existing, d, verdict_on(verdicts, d).0) == Category::Vendored,
        ).map_values(
            |d: Seq<char>|
                (
                    "code-index:"@ + project + ":vendored:"@ + d,
                    project + " vendors "@ + (match verdict_on(verdicts, d).1 {
                        Some(w) => w,
                        None => "third-party code"@,
                    }) + " under "@ + d,
                ),
        ),
    decreases dirs.len(),
{
    reveal(Seq::filter);
    let keep = |d: Seq<char>| effective(existing, d, verdict_on(verdicts, d).0) == Category::Vendored;
    let show = |d: Seq<char>|
        (
            "code-index:"@ + project + ":vendored:"@ + d,
            project + " vendors "@ + (match verdict_on(verdicts, d).1 {
                Some(w) => w,
                None => "third-party code"@,
            }) + " under "@ + d,
        );
    if dirs.len() > 0 {
        law_each_vendored_directory_earns_a_memory(dirs.drop_last(), verdicts, existing, project);
        let d = dirs.last();
        let g = dirs.drop_last().filter(keep);
        assert(g.push(d).map_values(show) =~= g.map_values(show).push(show(d)));
    } else {
        assert(pass_memories(dirs, verdicts, existing, project) =~= dirs.filter(keep).map_values(show));
    }
}

} // verus!
