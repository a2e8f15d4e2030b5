//! Laws of project cards, fingerprints and drift.

use vstd::prelude::*;

use crate::code_index::rows::opt_view;
use crate::code_index::scope::lemma_trim_noop;
use crate::laws::prompt::lemma_grows;
use crate::laws::text::{all_space, is_bare, law_one_line, law_trim_of_padded};
use crate::order::{not_after, sorted};
use crate::projects::{
    behind_prefix, card_line, commits_since, drift, entry_points, first_commit, full_card, manifests, name_list, package_name,
    present, printed, project_name, short_commit, shown_dirs, suggested_tests, CardFacts, DriftState,
};
use crate::text::{contains, join, lines, listed, starts_with, texts, trim_end_of, trim_start_of};

verus! {

// --- what a card shows ---

/// The layout shows every directory that is not hidden and not made by a build.
pub proof fn law_every_plain_directory_is_shown(names: Seq<Seq<char>>)
    ensures
        shown_dirs(names) == names.filter(
            |n: Seq<char>| !starts_with(n, "."@) && n != "target"@ && n != "node_modules"@,
        ),
        sorted(shown_dirs(names)).to_multiset() == shown_dirs(names).to_multiset(),
{
    lemma_shown_dirs(names);
    let leq = |a: Seq<char>, b: Seq<char>| not_after(a, b);
    crate::order::lemma_not_after_is_total_ordering();
    shown_dirs(names).lemma_sort_by_ensures(leq);
}

proof fn lemma_shown_dirs(names: Seq<Seq<char>>)
    ensures
        shown_dirs(names) == names.filter(
            |n: Seq<char>| !starts_with(n, "."@) && n != "target"@ && n != "node_modules"@,
        ),
    decreases names.len(),
{
    reveal(Seq::filter);
    if names.len() > 0 {
        lemma_shown_dirs(names.drop_last());
    }
}

/// Of the names that are looked for, those that are files are found, all of
/// them and in order.
pub proof fn law_every_present_name_is_found(names: Seq<Seq<char>>, files: Seq<Seq<char>>)
    ensures
        present(names, files) == names.filter(|n: Seq<char>| listed(files, n)),
    decreases names.len(),
{
    reveal(Seq::filter);
    if names.len() > 0 {
        law_every_present_name_is_found(names.drop_last(), files);
    }
}

/// The line of a card.
pub open spec fn shown_line(label: Seq<char>, what: Seq<char>) -> Seq<char> {
    "- "@ + label + ": "@ + what + "\n"@
}

/// A card shows, before it is cut, every fact that is known of a project.
pub proof fn law_card_shows_every_fact(f: CardFacts)
    ensures
        starts_with(full_card(f), "project "@ + project_name(f.root@) + " at "@ + f.root@ + "\n"@),
        f.remote is Some ==> contains(full_card(f), shown_line("remote"@, (f.remote->0)@)),
        f.branch is Some ==> contains(full_card(f), shown_line("branch"@, (f.branch->0)@)),
        short_commit(f.fingerprint) is Some ==> contains(
            full_card(f),
            shown_line("root commit"@, short_commit(f.fingerprint)->0),
        ),
        shown_dirs(texts(f.dirs@)).len() > 0 ==> contains(
            full_card(f),
            shown_line("layout"@, join(sorted(shown_dirs(texts(f.dirs@))), ", "@)),
        ),
        present(manifests(), texts(f.files@)).len() > 0 ==> contains(
            full_card(f),
            shown_line("manifests"@, join(present(manifests(), texts(f.files@)), ", "@)),
        ),
        package_name(opt_view(f.cargo_toml), opt_view(f.package_json), opt_view(f.go_mod)) is Some ==> contains(
            full_card(f),
            shown_line(
                "package name"@,
                package_name(opt_view(f.cargo_toml), opt_view(f.package_json), opt_view(f.go_mod))->0,
            ),
        ),
        present(entry_points(), texts(f.files@)).len() > 0 ==> contains(
            full_card(f),
            shown_line("entry points"@, join(present(entry_points(), texts(f.files@)), ", "@)),
        ),
        suggested_tests(texts(f.files@)) is Some ==> contains(
            full_card(f),
            shown_line("test command"@, suggested_tests(texts(f.files@))->0),
        ),
{
    broadcast use vstd::seq_lib::group_to_multiset_ensures;

    let dirs = shown_dirs(texts(f.dirs@));
    law_every_plain_directory_is_shown(texts(f.dirs@));
    assert(sorted(dirs).to_multiset().len() == sorted(dirs).len());
    assert(dirs.to_multiset().len() == dirs.len());
    let h = "project "@ + project_name(f.root@) + " at "@ + f.root@ + "\n"@;
    let c1 = card_line("remote"@, opt_view(f.remote));
    let c2 = card_line("branch"@, opt_view(f.branch));
    let c3 = card_line("root commit"@, short_commit(f.fingerprint));
    let c4 = card_line("layout"@, name_list(sorted(dirs)));
    let c5 = card_line("manifests"@, name_list(present(manifests(), texts(f.files@))));
    let c6 = card_line(
        "package name"@,
        package_name(opt_view(f.cargo_toml), opt_view(f.package_json), opt_view(f.go_mod)),
    );
    let c7 = card_line("entry points"@, name_list(present(entry_points(), texts(f.files@))));
    let c8 = card_line("test command"@, suggested_tests(texts(f.files@)));
    assert(full_card(f) == h + c1 + c2 + c3 + c4 + c5 + c6 + c7 + c8);
    lemma_eight(h, c1, c2, c3, c4, c5, c6, c7, c8);
}

proof fn lemma_tail_holds(a: Seq<char>, c: Seq<char>)
    ensures
        contains(a + c, c),
{
    let none: Seq<char> = Seq::empty();
    assert(a + c =~= a + c + none);
    crate::laws::text::lemma_stands_between(a, c, none);
}

proof fn lemma_eight(
    h: Seq<char>,
    c1: Seq<char>,
    c2: Seq<char>,
    c3: Seq<char>,
    c4: Seq<char>,
    c5: Seq<char>,
    c6: Seq<char>,
    c7: Seq<char>,
    c8: Seq<char>,
)
    ensures
        ({
            let all = h + c1 + c2 + c3 + c4 + c5 + c6 + c7 + c8;
            &&& starts_with(all, h)
            &&& contains(all, c1) && contains(all, c2) && contains(all, c3) && contains(all, c4)
            &&& contains(all, c5) && contains(all, c6) && contains(all, c7) && contains(all, c8)
        }),
{
    let a1 = h + c1;
    let a2 = a1 + c2;
    let a3 = a2 + c3;
    let a4 = a3 + c4;
    let a5 = a4 + c5;
    let a6 = a5 + c6;
    let a7 = a6 + c7;
    let a8 = a7 + c8;
    assert(a8.take(h.len() as int) =~= h);
    lemma_tail_holds(h, c1);
    lemma_tail_holds(a1, c2);
    lemma_tail_holds(a2, c3);
    lemma_tail_holds(a3, c4);
    lemma_tail_holds(a4, c5);
    lemma_tail_holds(a5, c6);
    lemma_tail_holds(a6, c7);
    lemma_tail_holds(a7, c8);
    lemma_grows(a1, c2, c1);
    lemma_grows(a2, c3, c1);
    lemma_grows(a2, c3, c2);
    lemma_grows(a3, c4, c1);
    lemma_grows(a3, c4, c2);
    lemma_grows(a3, c4, c3);
    lemma_grows(a4, c5, c1);
    lemma_grows(a4, c5, c2);
    lemma_grows(a4, c5, c3);
    lemma_grows(a4, c5, c4);
    lemma_grows(a5, c6, c1);
    lemma_grows(a5, c6, c2);
    lemma_grows(a5, c6, c3);
    lemma_grows(a5, c6, c4);
    lemma_grows(a5, c6, c5);
    lemma_grows(a6, c7, c1);
    lemma_grows(a6, c7, c2);
    lemma_grows(a6, c7, c3);
    lemma_grows(a6, c7, c4);
    lemma_grows(a6, c7, c5);
    lemma_grows(a6, c7, c6);
    lemma_grows(a7, c8, c1);
    lemma_grows(a7, c8, c2);
    lemma_grows(a7, c8, c3);
    lemma_grows(a7, c8, c4);
    lemma_grows(a7, c8, c5);
    lemma_grows(a7, c8, c6);
    lemma_grows(a7, c8, c7);
}

// --- names ---

proof fn lemma_behind_prefix(ls: Seq<Seq<char>>, prefix: Seq<char>, i: int)
    requires
        0 <= i < ls.len(),
        starts_with(ls[i], prefix),
        forall|j: int| 0 <= j < i ==> !starts_with(#[trigger] ls[j], prefix),
    ensures
        behind_prefix(ls, prefix) == Some(ls[i].skip(prefix.len() as int)),
    decreases i,
{
    if i > 0 {
        assert(!starts_with(ls[0], prefix));
        let d = ls.drop_first();
        assert(d[i - 1] == ls[i]);
        assert forall|j: int| 0 <= j < i - 1 implies !starts_with(#[trigger] d[j], prefix) by {
            assert(d[j] == ls[j + 1]);
        }
        lemma_behind_prefix(d, prefix, i - 1);
    }
}

/// Whether a text can be a package's name: not empty, one line, and with no
/// white space, quote or equals sign at its ends.
pub open spec fn is_package_name(n: Seq<char>) -> bool {
    n.len() > 0 && is_bare(n) && n[0] != '"' && n[0] != '=' && n.last() != '"' && !n.contains('\n')
}

/// The first line of a Cargo manifest that gives a name names the package,
/// whatever the other manifests say.
pub proof fn law_cargo_names_the_package(
    toml: Seq<char>,
    n: Seq<char>,
    i: int,
    package_json: Option<Seq<char>>,
    go_mod: Option<Seq<char>>,
)
    requires
        is_package_name(n),
        0 <= i < lines(toml).len(),
        lines(toml)[i] == "name = \""@ + n + "\""@,
        forall|j: int| 0 <= j < i ==> !starts_with(#[trigger] lines(toml)[j], "name"@),
    ensures
        package_name(Some(toml), package_json, go_mod) == Some(n),
{
    let ls = lines(toml);
    reveal_strlit("name = \"");
    reveal_strlit("name");
    reveal_strlit("\"");
    let l = ls[i];
    assert(l.take(4) =~= "name"@);
    lemma_behind_prefix(ls, "name"@, i);
    let b = l.skip(4);
    let q = "\""@ + n + "\""@;
    let b1 = b.drop_first();
    let b2 = b1.drop_first();
    let b3 = b2.drop_first();
    assert(b[0] == ' ' && b1[0] == '=' && b2[0] == ' ');
    assert(b3 =~= q);
    assert(q[0] == '"');
    assert(trim_start_of(b3, ' ', '=') == b3);
    assert(trim_start_of(b2, ' ', '=') == b3);
    assert(trim_start_of(b1, ' ', '=') == b3);
    assert(trim_start_of(b, ' ', '=') == b3);
    assert(q.last() == '"');
    lemma_trim_noop(q);
    let q1 = n + "\""@;
    assert(q.drop_first() =~= q1);
    assert(q1[0] == n[0]);
    assert(trim_start_of(q1, '"', '"') == q1);
    assert(trim_start_of(q, '"', '"') == q1);
    assert(q1.drop_last() =~= n);
    assert(trim_end_of(n, '"', '"') == n);
    assert(trim_end_of(q1, '"', '"') == n);
}

/// Where there is a Go module alone, its first module line names the package.
pub proof fn law_go_module_names_the_package(text: Seq<char>, n: Seq<char>, i: int)
    requires
        n.len() > 0,
        is_bare(n),
        0 <= i < lines(text).len(),
        lines(text)[i] == "module "@ + n,
        forall|j: int| 0 <= j < i ==> !starts_with(#[trigger] lines(text)[j], "module "@),
    ensures
        package_name(None, None, Some(text)) == Some(n),
{
    let l = lines(text)[i];
    let p = "module "@;
    assert(l.take(p.len() as int) =~= p);
    lemma_behind_prefix(lines(text), p, i);
    assert(l.skip(p.len() as int) =~= n);
    lemma_trim_noop(n);
}

// --- fingerprints and drift ---

/// What git prints is taken without the white space around it, and only where
/// it succeeded; the first commit is the first line of it.
pub proof fn law_first_commit_is_the_first_line(a: Seq<char>, h: Seq<char>, rest: Seq<char>, b: Seq<char>)
    requires
        all_space(a),
        all_space(b),
        h.len() > 0,
        is_bare(h),
        !h.contains('\n'),
        is_bare(rest),
        rest.len() > 0,
    ensures
        first_commit(printed(true, a + h + b)) == Some(h),
        first_commit(printed(true, a + (h + "\n"@ + rest) + b)) == Some(h),
        printed(false, a + h + b) is None,
        first_commit(None) is None,
{
    reveal_strlit("\n");
    law_trim_of_padded(a, h, b);
    law_one_line(h);
    let two = h + "\n"@ + rest;
    assert(two[0] == h[0]);
    assert(two.last() == rest.last());
    law_trim_of_padded(a, two, b);
    crate::text::lemma_find_char(two, '\n');
    let n = h.len() as int;
    assert(two[n] == '\n');
    assert forall|j: int| 0 <= j < n implies two[j] != '\n' by {
        assert(two[j] == h[j]);
        assert(h.contains(h[j]));
    }
    assert(two.take(n) =~= h);
    assert(lines(two)[0] == h);
}

/// A map drifts with the thirtieth commit since it was made, or with its age;
/// fewer commits, or a count that went back, leave it fresh.
pub proof fn law_drift(then_: i64, now: i64, days_over: bool)
    requires
        now - then_ <= i64::MAX,
    ensures
        drift(true, commits_since(Some(then_), Some(now)), days_over) is Fresh <==> now - then_ < 30 && !days_over,
        now - then_ >= 30 ==> drift(true, commits_since(Some(then_), Some(now)), days_over) == (DriftState::Drifted {
            commits: (now - then_) as i64,
        }),
        drift(false, commits_since(Some(then_), Some(now)), days_over) is NeverIndexed,
        !days_over ==> drift(true, commits_since(None, Some(now)), days_over) is Fresh,
        !days_over ==> drift(true, commits_since(Some(then_), None), days_over) is Fresh,
{
}

} // verus!
