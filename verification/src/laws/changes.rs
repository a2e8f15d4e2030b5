//! Laws of the changes between the index and the committed tree.

use vstd::prelude::*;

use crate::code_index::changes::{
    ancestors, ancestors_of_all, changes_of, in_prefix, in_scope, is_flagged, is_live, is_move, lemma_row_blob,
    lemma_sorted_lists_the_same, lemma_to_chunk, lemma_to_delete, lemma_tree_blob, moved_from, moved_to, moves,
    moves_in, one_file_per_path, out_of_scope, parent, path_hits, row_blob, row_of, to_delete, top_parts,
    vendored_owners, with_chunk_hits, HitView,
};
use crate::code_index::rows::{one_row_per_path, FileView, RowView, ScopeView};
use crate::code_index::scope::{governing_category, owning, Category};
use crate::code_index::secrets::{content_label, path_label};
use crate::laws::text::law_split_undone_by_join;
use crate::order::{ascending, lemma_sorted_set, sorted_set};
use crate::text::{find_char, join, lemma_find_char, lemma_rfind_upto, listed, occurs_at, rfind, split, starts_with};

verus! {

// --- prefixes ---

/// A run over a prefix concerns the path that the prefix is, and every path in
/// the directory that it is: `src` concerns `src/a`, not `srcs/a`.
pub proof fn law_prefix_is_a_directory(prefix: Seq<char>, path: Seq<char>)
    requires
        prefix.len() > 0 ==> prefix.last() != '/',
    ensures
        in_prefix(Some(prefix), path) <==> path == prefix || starts_with(path, prefix + "/"@),
        in_prefix(None, path),
{
    reveal_strlit("/");
    assert(prefix.push('/') =~= prefix + "/"@);
}

// --- changes ---

/// The files that have to be chunked are those of the tree, within the prefix,
/// whose blob the index does not hold at their path and that no row moves to.
pub proof fn law_files_to_chunk(
    rows: Seq<RowView>,
    tree: Seq<FileView>,
    renames: Seq<(Seq<char>, Seq<char>)>,
    prefix: Option<Seq<char>>,
    f: FileView,
)
    requires
        one_row_per_path(rows),
    ensures
        changes_of(rows, tree, renames, prefix).add_or_modify.contains(f) <==> {
            &&& tree.contains(f)
            &&& in_prefix(prefix, f.path)
            &&& !exists|i: int| 0 <= i < rows.len() && (#[trigger] rows[i]).path == f.path && rows[i].blob == f.blob
            &&& !exists|k: int|
                0 <= k < renames.len() && (#[trigger] renames[k]).1 == f.path && is_move(rows, tree, renames[k])
        },
{
    let m = moves(rows, tree, renames);
    lemma_to_chunk(rows, m, tree, prefix);
    lemma_moved_to(rows, tree, renames, f.path);
    lemma_row_blob(rows, f.path);
    if row_blob(rows, f.path) == Some(f.blob) {
        let i = choose|i: int| 0 <= i < rows.len() && (#[trigger] rows[i]).path == f.path;
        assert(rows[i].blob == f.blob);
    }
}

proof fn lemma_moved_to(rows: Seq<RowView>, tree: Seq<FileView>, renames: Seq<(Seq<char>, Seq<char>)>, path: Seq<char>)
    ensures
        moved_to(moves(rows, tree, renames), path) <==> exists|k: int|
            0 <= k < renames.len() && (#[trigger] renames[k]).1 == path && is_move(rows, tree, renames[k]),
        moved_from(moves(rows, tree, renames), path) <==> exists|k: int|
            0 <= k < renames.len() && (#[trigger] renames[k]).0 == path && is_move(rows, tree, renames[k]),
    decreases renames.len(),
{
    let m = moves(rows, tree, renames);
    if renames.len() > 0 {
        let d = renames.drop_last();
        let x = renames.last();
        let md = moves(rows, tree, d);
        lemma_moved_to(rows, tree, d, path);
        assert(renames[renames.len() - 1] == x);
        assert forall|k: int| 0 <= k < d.len() implies d[k] == #[trigger] renames[k] by {}
        assert forall|k: int| 0 <= k < md.len() implies md[k] == #[trigger] m[k] by {}
        if is_move(rows, tree, x) {
            assert(m[m.len() - 1] == x);
        }
        if moved_to(md, path) {
            let i = choose|i: int| 0 <= i < md.len() && (#[trigger] md[i]).1 == path;
            assert(m[i].1 == path);
        }
        if moved_from(md, path) {
            let i = choose|i: int| 0 <= i < md.len() && (#[trigger] md[i]).0 == path;
            assert(m[i].0 == path);
        }
        if moved_to(m, path) {
            let i = choose|i: int| 0 <= i < m.len() && (#[trigger] m[i]).1 == path;
            if i < md.len() {
                assert(md[i].1 == path);
                let k = choose|k: int| 0 <= k < d.len() && (#[trigger] d[k]).1 == path && is_move(rows, tree, d[k]);
                assert(renames[k].1 == path);
            }
        }
        if moved_from(m, path) {
            let i = choose|i: int| 0 <= i < m.len() && (#[trigger] m[i]).0 == path;
            if i < md.len() {
                assert(md[i].0 == path);
                let k = choose|k: int| 0 <= k < d.len() && (#[trigger] d[k]).0 == path && is_move(rows, tree, d[k]);
                assert(renames[k].0 == path);
            }
        }
    }
}

/// The rows that go are those within the prefix whose path the tree does not
/// have and that do not move.
pub proof fn law_rows_to_delete(
    rows: Seq<RowView>,
    tree: Seq<FileView>,
    renames: Seq<(Seq<char>, Seq<char>)>,
    prefix: Option<Seq<char>>,
    p: Seq<char>,
)
    ensures
        listed(changes_of(rows, tree, renames, prefix).delete, p) <==> {
            &&& exists|i: int| 0 <= i < rows.len() && (#[trigger] rows[i]).path == p
            &&& !exists|i: int| 0 <= i < tree.len() && (#[trigger] tree[i]).path == p
            &&& in_prefix(prefix, p)
            &&& !exists|k: int| 0 <= k < renames.len() && (#[trigger] renames[k]).0 == p && is_move(rows, tree, renames[k])
        },
{
    let m = moves(rows, tree, renames);
    lemma_to_delete(rows, tree, m, prefix);
    lemma_sorted_lists_the_same(to_delete(rows, tree, m, prefix));
    lemma_moved_to(rows, tree, renames, p);
    lemma_row_blob(rows, p);
    lemma_tree_blob(tree, p);
}

/// A row moves where the rename takes it from a path that the tree no longer
/// has to one that the index does not have yet, with the same blob; and such a
/// move is made where either of its paths is within the prefix.
pub proof fn law_rows_to_move(
    rows: Seq<RowView>,
    tree: Seq<FileView>,
    renames: Seq<(Seq<char>, Seq<char>)>,
    prefix: Option<Seq<char>>,
)
    requires
        one_row_per_path(rows),
        one_file_per_path(tree),
    ensures
        changes_of(rows, tree, renames, prefix).moved == renames.filter(
            |r: (Seq<char>, Seq<char>)|
                is_move(rows, tree, r) && (in_prefix(prefix, r.0) || in_prefix(prefix, r.1)),
        ),
        forall|r: (Seq<char>, Seq<char>)| #[trigger]
            is_move(rows, tree, r) <==> {
                &&& exists|i: int, k: int|
                    0 <= i < rows.len() && 0 <= k < tree.len() && (#[trigger] rows[i]).path == r.0 && (#[trigger] tree[k]).path == r.1
                        && rows[i].blob == tree[k].blob
                &&& !exists|i: int| 0 <= i < rows.len() && (#[trigger] rows[i]).path == r.1
                &&& !exists|k: int| 0 <= k < tree.len() && (#[trigger] tree[k]).path == r.0
            },
{
    lemma_moves_filter(rows, tree, renames, prefix);
    assert forall|r: (Seq<char>, Seq<char>)| #[trigger]
        is_move(rows, tree, r) <==> {
            &&& exists|i: int, k: int|
                0 <= i < rows.len() && 0 <= k < tree.len() && (#[trigger] rows[i]).path == r.0 && (#[trigger] tree[k]).path == r.1
                    && rows[i].blob == tree[k].blob
            &&& !exists|i: int| 0 <= i < rows.len() && (#[trigger] rows[i]).path == r.1
            &&& !exists|k: int| 0 <= k < tree.len() && (#[trigger] tree[k]).path == r.0
        } by {
        lemma_row_blob(rows, r.0);
        lemma_row_blob(rows, r.1);
        lemma_tree_blob(tree, r.0);
        lemma_tree_blob(tree, r.1);
        if is_move(rows, tree, r) {
            let i = choose|i: int| 0 <= i < rows.len() && (#[trigger] rows[i]).path == r.0;
            let k = choose|k: int| 0 <= k < tree.len() && (#[trigger] tree[k]).path == r.1;
            assert(rows[i].blob == tree[k].blob);
        }
    }
}

proof fn lemma_moves_filter(
    rows: Seq<RowView>,
    tree: Seq<FileView>,
    renames: Seq<(Seq<char>, Seq<char>)>,
    prefix: Option<Seq<char>>,
)
    ensures
        moves_in(moves(rows, tree, renames), prefix) == renames.filter(
            |r: (Seq<char>, Seq<char>)|
                is_move(rows, tree, r) && (in_prefix(prefix, r.0) || in_prefix(prefix, r.1)),
        ),
    decreases renames.len(),
{
    reveal(Seq::filter);
    if renames.len() > 0 {
        lemma_moves_filter(rows, tree, renames.drop_last(), prefix);
        let m = moves(rows, tree, renames);
        if is_move(rows, tree, renames.last()) {
            assert(m.drop_last() =~= moves(rows, tree, renames.drop_last()));
        }
    }
}

/// A run over a prefix does of a whole run's changes those within the prefix.
pub proof fn law_prefix_picks_from_the_whole(
    rows: Seq<RowView>,
    tree: Seq<FileView>,
    renames: Seq<(Seq<char>, Seq<char>)>,
    prefix: Option<Seq<char>>,
)
    ensures
        changes_of(rows, tree, renames, prefix).add_or_modify == changes_of(rows, tree, renames, None).add_or_modify.filter(
            |f: FileView| in_prefix(prefix, f.path),
        ),
        forall|p: Seq<char>| #[trigger]
            listed(changes_of(rows, tree, renames, prefix).delete, p) <==> listed(
                changes_of(rows, tree, renames, None).delete,
                p,
            ) && in_prefix(prefix, p),
{
    let m = moves(rows, tree, renames);
    lemma_chunk_prefix(rows, m, tree, prefix);
    lemma_to_delete(rows, tree, m, prefix);
    lemma_to_delete(rows, tree, m, None);
    lemma_sorted_lists_the_same(to_delete(rows, tree, m, prefix));
    lemma_sorted_lists_the_same(to_delete(rows, tree, m, None));
    let a = to_delete(rows, tree, m, prefix);
    let b = to_delete(rows, tree, m, None);
    assert forall|p: Seq<char>| #[trigger]
        listed(changes_of(rows, tree, renames, prefix).delete, p) <==> listed(changes_of(rows, tree, renames, None).delete, p)
            && in_prefix(prefix, p) by {
        assert(listed(a, p) <==> listed(b, p) && in_prefix(prefix, p));
    }
}

proof fn lemma_chunk_prefix(rows: Seq<RowView>, m: Seq<(Seq<char>, Seq<char>)>, tree: Seq<FileView>, prefix: Option<Seq<char>>)
    ensures
        crate::code_index::changes::to_chunk(rows, m, tree, prefix) == crate::code_index::changes::to_chunk(
            rows,
            m,
            tree,
            None,
        ).filter(|f: FileView| in_prefix(prefix, f.path)),
    decreases tree.len(),
{
    reveal(Seq::filter);
    if tree.len() > 0 {
        lemma_chunk_prefix(rows, m, tree.drop_last(), prefix);
        let w = crate::code_index::changes::to_chunk(rows, m, tree, None);
        if crate::code_index::changes::is_new_content(rows, m, tree.last()) {
            assert(w.drop_last() =~= crate::code_index::changes::to_chunk(rows, m, tree.drop_last(), None));
        }
    }
}

// --- scope ---

/// Of the files every one whose directory is indexed stays, and no other, in
/// their order.
pub proof fn law_files_in_scope_stay(scopes: Seq<ScopeView>, files: Seq<FileView>)
    ensures
        in_scope(scopes, files) == files.filter(
            |f: FileView|
                governing_category(scopes, f.path) == Category::Product || governing_category(scopes, f.path)
                    == Category::Tests || governing_category(scopes, f.path) == Category::Docs,
        ),
    decreases files.len(),
{
    reveal(Seq::filter);
    if files.len() > 0 {
        law_files_in_scope_stay(scopes, files.drop_last());
    }
}

/// The files that a cleanup removes are all those within the prefix whose
/// directory is no longer indexed.
pub proof fn law_files_out_of_scope_go(scopes: Seq<ScopeView>, prefix: Option<Seq<char>>, paths: Seq<Seq<char>>)
    ensures
        out_of_scope(scopes, prefix, paths) == paths.filter(
            |p: Seq<char>|
                in_prefix(prefix, p) && (governing_category(scopes, p) == Category::Vendored || governing_category(scopes, p)
                    == Category::Generated || governing_category(scopes, p) == Category::Assets || governing_category(
                    scopes,
                    p,
                ) == Category::BuildOutput),
        ),
    decreases paths.len(),
{
    reveal(Seq::filter);
    if paths.len() > 0 {
        law_files_out_of_scope_go(scopes, prefix, paths.drop_last());
    }
}

/// The summaries that a cleanup makes stale are those of the directories of
/// every removed file, and no others.
pub proof fn law_every_directory_of_a_removed_file_is_stale(paths: Seq<Seq<char>>, d: Seq<char>)
    ensures
        listed(sorted_set(ancestors_of_all(paths)), d) <==> exists|i: int|
            0 <= i < paths.len() && listed(ancestors(#[trigger] paths[i]), d),
{
    lemma_sorted_set(ancestors_of_all(paths));
    lemma_ancestors_of_all(paths, d);
}

proof fn lemma_ancestors_of_all(paths: Seq<Seq<char>>, d: Seq<char>)
    ensures
        listed(ancestors_of_all(paths), d) <==> exists|i: int| 0 <= i < paths.len() && listed(ancestors(#[trigger] paths[i]), d),
    decreases paths.len(),
{
    if paths.len() > 0 {
        let q = paths.drop_last();
        lemma_ancestors_of_all(q, d);
        let a = ancestors_of_all(q);
        let b = ancestors(paths.last());
        let all = ancestors_of_all(paths);
        assert(paths[paths.len() - 1] == paths.last());
        if listed(all, d) {
            let i = choose|i: int| 0 <= i < all.len() && #[trigger] all[i] == d;
            if i < a.len() {
                assert(a[i] == d);
                assert(listed(a, d));
                let k = choose|k: int| 0 <= k < q.len() && listed(ancestors(#[trigger] q[k]), d);
                assert(paths[k] == q[k]);
            } else {
                assert(b[i - a.len()] == d);
            }
        }
        if exists|i: int| 0 <= i < paths.len() && listed(ancestors(#[trigger] paths[i]), d) {
            let i = choose|i: int| 0 <= i < paths.len() && listed(ancestors(#[trigger] paths[i]), d);
            if i < q.len() {
                assert(q[i] == paths[i]);
                assert(listed(a, d));
                let k = choose|k: int| 0 <= k < a.len() && #[trigger] a[k] == d;
                assert(all[k] == d);
            } else {
                let k = choose|k: int| 0 <= k < b.len() && #[trigger] b[k] == d;
                assert(all[a.len() + k] == d);
            }
        }
    }
}

/// A removed file whose directory is vendored has that directory among the
/// vendored ones, and nothing else is among them.
pub proof fn law_vendored_directories_of_removed_files(scopes: Seq<ScopeView>, paths: Seq<Seq<char>>, d: Seq<char>)
    ensures
        listed(sorted_set(vendored_owners(scopes, paths)), d) <==> exists|i: int|
            0 <= i < paths.len() && governing_category(scopes, #[trigger] paths[i]) == Category::Vendored && owning(
                scopes,
                paths[i],
            ) == Some(d),
{
    lemma_sorted_set(vendored_owners(scopes, paths));
    lemma_vendored_owners(scopes, paths, d);
}

proof fn lemma_vendored_owners(scopes: Seq<ScopeView>, paths: Seq<Seq<char>>, d: Seq<char>)
    ensures
        listed(vendored_owners(scopes, paths), d) <==> exists|i: int|
            0 <= i < paths.len() && governing_category(scopes, #[trigger] paths[i]) == Category::Vendored && owning(
                scopes,
                paths[i],
            ) == Some(d),
    decreases paths.len(),
{
    if paths.len() > 0 {
        let q = paths.drop_last();
        lemma_vendored_owners(scopes, q, d);
        let a = vendored_owners(scopes, q);
        let all = vendored_owners(scopes, paths);
        let x = paths.last();
        assert(paths[paths.len() - 1] == x);
        if listed(all, d) {
            let i = choose|i: int| 0 <= i < all.len() && #[trigger] all[i] == d;
            if i < a.len() {
                assert(a[i] == d);
                let k = choose|k: int|
                    0 <= k < q.len() && governing_category(scopes, #[trigger] q[k]) == Category::Vendored && owning(
                        scopes,
                        q[k],
                    ) == Some(d);
                assert(paths[k] == q[k]);
            }
        }
        if exists|i: int|
            0 <= i < paths.len() && governing_category(scopes, #[trigger] paths[i]) == Category::Vendored && owning(
                scopes,
                paths[i],
            ) == Some(d) {
            let i = choose|i: int|
                0 <= i < paths.len() && governing_category(scopes, #[trigger] paths[i]) == Category::Vendored && owning(
                    scopes,
                    paths[i],
                ) == Some(d);
            if i < q.len() {
                assert(q[i] == paths[i]);
                let k = choose|k: int| 0 <= k < a.len() && #[trigger] a[k] == d;
                assert(all[k] == d);
            } else {
                assert(all[a.len() as int] == d);
            }
        }
    }
}

// --- directories ---

/// Whether a text is a name: without a slash.
pub open spec fn is_slashless(s: Seq<char>) -> bool {
    !s.contains('/')
}

/// The top-level directories are what stands before the first slash of some
/// file's path: each listed once, and none left out.
pub proof fn law_top_level_directories(files: Seq<FileView>, d: Seq<char>)
    ensures
        ascending(sorted_set(top_parts(files))),
        listed(sorted_set(top_parts(files)), d) <==> is_slashless(d) && exists|i: int|
            0 <= i < files.len() && starts_with((#[trigger] files[i]).path, d + "/"@),
{
    lemma_sorted_set(top_parts(files));
    lemma_top_parts(files, d);
}

pub proof fn lemma_before_slash(p: Seq<char>, d: Seq<char>)
    ensures
        (find_char(p, '/') < p.len() && p.take(find_char(p, '/')) == d) <==> is_slashless(d) && starts_with(p, d + "/"@),
{
    reveal_strlit("/");
    lemma_find_char(p, '/');
    let k = find_char(p, '/');
    let n = d.len() as int;
    if k < p.len() && p.take(k) == d {
        assert(p.take(k + 1) =~= d + "/"@);
        assert forall|j: int| 0 <= j < d.len() implies d[j] != '/' by {
            assert(d[j] == p[j]);
        }
    }
    if is_slashless(d) && starts_with(p, d + "/"@) {
        let h = p.take(n + 1);
        assert(p[n] == h[n]);
        if k < n {
            assert(h[k] == d[k]);
            assert(d.contains(d[k]));
            assert(p[k] == h[k]);
        }
        assert(k == n);
        assert(p.take(n) =~= h.take(n));
        assert(h.take(n) =~= d);
    }
}

proof fn lemma_top_parts(files: Seq<FileView>, d: Seq<char>)
    ensures
        listed(top_parts(files), d) <==> is_slashless(d) && exists|i: int|
            0 <= i < files.len() && starts_with((#[trigger] files[i]).path, d + "/"@),
    decreases files.len(),
{
    if files.len() > 0 {
        let q = files.drop_last();
        let a = top_parts(q);
        let all = top_parts(files);
        let p = files.last().path;
        lemma_top_parts(q, d);
        lemma_before_slash(p, d);
        assert(files[files.len() - 1] == files.last());
        if listed(all, d) {
            let i = choose|i: int| 0 <= i < all.len() && #[trigger] all[i] == d;
            if i < a.len() {
                assert(a[i] == d);
                let k = choose|k: int| 0 <= k < q.len() && starts_with((#[trigger] q[k]).path, d + "/"@);
                assert(files[k] == q[k]);
            }
        }
        if is_slashless(d) && exists|i: int| 0 <= i < files.len() && starts_with((#[trigger] files[i]).path, d + "/"@) {
            let i = choose|i: int| 0 <= i < files.len() && starts_with((#[trigger] files[i]).path, d + "/"@);
            if i < q.len() {
                assert(q[i] == files[i]);
                let k = choose|k: int| 0 <= k < a.len() && #[trigger] a[k] == d;
                assert(all[k] == d);
            } else {
                assert(all[a.len() as int] == d);
            }
        }
    }
}

/// The directory of a file is what stands before the last slash of its path;
/// a path without one lies in no directory.
pub proof fn law_parent_directory(d: Seq<char>, name: Seq<char>)
    requires
        is_slashless(name),
    ensures
        parent(d + "/"@ + name) == d,
        parent(name) == Seq::<char>::empty(),
{
    reveal_strlit("/");
    let p = d + "/"@ + name;
    let n = d.len() as int;
    lemma_rfind_upto(p, "/"@, p.len() - 1);
    let k = rfind(p, "/"@);
    assert(p.subrange(n, n + 1) =~= "/"@);
    assert(occurs_at(p, "/"@, n));
    assert forall|j: int| n < j < p.len() implies !occurs_at(p, "/"@, j) by {
        if occurs_at(p, "/"@, j) {
            assert(p.subrange(j, j + 1)[0] == p[j]);
            assert(p[j] == name[j - n - 1]);
            assert(name.contains(name[j - n - 1]));
        }
    }
    assert(k == n);
    assert(p.take(n) =~= d);
    lemma_rfind_upto(name, "/"@, name.len() - 1);
    let r = rfind(name, "/"@);
    if r >= 0 {
        assert(name.subrange(r, r + 1)[0] == name[r]);
        assert(name.contains(name[r]));
    }
}

/// The directories of a file that have a summary are the repository and, of
/// those that the path goes through, the first and the second.
pub proof fn law_summary_directories(path: Seq<char>, d: Seq<char>)
    ensures
        listed(ancestors(path), d) <==> {
            ||| d == "/"@
            ||| exists|x: Seq<char>| is_slashless(x) && d == #[trigger] (x + "/"@) && starts_with(path, d)
            ||| exists|x: Seq<char>, y: Seq<char>|
                is_slashless(x) && is_slashless(y) && d == #[trigger] (x + "/"@ + y + "/"@) && starts_with(path, d)
        },
{
    reveal_strlit("/");
    let c = split(path, '/');
    let all = ancestors(path);
    law_split_undone_by_join(path, '/');
    assert("/"@ =~= seq!['/']);
    if c.len() >= 2 {
        lemma_joined_front(c, path);
    }
    assert(all[all.len() - 1] == "/"@);
    if listed(all, d) {
        let i = choose|i: int| 0 <= i < all.len() && #[trigger] all[i] == d;
        if i < all.len() - 1 {
            assert(!c[0].contains('/'));
            if i == 0 {
                assert(d == c[0] + "/"@);
            } else {
                assert(!c[1].contains('/'));
                assert(d == c[0] + "/"@ + c[1] + "/"@);
            }
        }
    }
    if exists|x: Seq<char>| is_slashless(x) && d == #[trigger] (x + "/"@) && starts_with(path, d) {
        let x = choose|x: Seq<char>| is_slashless(x) && d == #[trigger] (x + "/"@) && starts_with(path, d);
        lemma_first_piece(path, x);
        assert(all[0] == d);
    }
    if exists|x: Seq<char>, y: Seq<char>|
        is_slashless(x) && is_slashless(y) && d == #[trigger] (x + "/"@ + y + "/"@) && starts_with(path, d) {
        let (x, y) = choose|x: Seq<char>, y: Seq<char>|
            is_slashless(x) && is_slashless(y) && d == #[trigger] (x + "/"@ + y + "/"@) && starts_with(path, d);
        let h = path.take(d.len() as int);
        assert(path.take((x + "/"@).len() as int) =~= h.take((x + "/"@).len() as int));
        assert(h.take((x + "/"@).len() as int) =~= x + "/"@);
        lemma_first_piece(path, x);
        let rest = path.skip(x.len() as int + 1);
        assert(rest.take((y + "/"@).len() as int) =~= h.skip(x.len() as int + 1));
        assert(h.skip(x.len() as int + 1) =~= y + "/"@);
        lemma_first_piece(rest, y);
        assert(c[1] == split(rest, '/')[0]);
        assert(all[1] == d);
    }
}

pub proof fn lemma_first_piece(path: Seq<char>, x: Seq<char>)
    requires
        is_slashless(x),
        starts_with(path, x + "/"@),
    ensures
        split(path, '/').len() >= 2,
        split(path, '/')[0] == x,
        split(path, '/') == seq![x] + split(path.skip(x.len() as int + 1), '/'),
{
    lemma_before_slash(path, x);
    lemma_find_char(path, '/');
    assert(path.take(find_char(path, '/')).len() == x.len());
    law_split_undone_by_join(path.skip(x.len() as int + 1), '/');
}

proof fn lemma_joined_front(c: Seq<Seq<char>>, path: Seq<char>)
    requires
        c.len() >= 2,
        join(c, seq!['/']) == path,
    ensures
        starts_with(path, c[0] + "/"@),
        c.len() >= 3 ==> starts_with(path, c[0] + "/"@ + c[1] + "/"@),
{
    reveal_strlit("/");
    assert("/"@ =~= seq!['/']);
    crate::improve::outcome::lemma_join_front(c, seq!['/']);
    let r = c.drop_first();
    assert(path == c[0] + "/"@ + join(r, seq!['/']));
    assert(path.take((c[0] + "/"@).len() as int) =~= c[0] + "/"@);
    if c.len() >= 3 {
        crate::improve::outcome::lemma_join_front(r, seq!['/']);
        let two = c[0] + "/"@ + c[1] + "/"@;
        assert(join(r, seq!['/']) == c[1] + "/"@ + join(r.drop_first(), seq!['/']));
        assert(path.take(two.len() as int) =~= two);
    }
}

// --- secrets ---

/// Whether a live row of the path is within the prefix.
pub open spec fn has_live_row(rows: Seq<RowView>, prefix: Option<Seq<char>>, path: Seq<char>) -> bool {
    exists|i: int|
        0 <= i < rows.len() && (#[trigger] rows[i]).path == path && rows[i].status != "skipped"@ && in_prefix(prefix, path)
}

proof fn lemma_path_hits(rows: Seq<RowView>, prefix: Option<Seq<char>>, p: Seq<char>)
    ensures
        is_flagged(path_hits(rows, prefix), p) <==> has_live_row(rows, prefix, p) && path_label(p) is Some,
    decreases rows.len(),
{
    if rows.len() > 0 {
        let d = rows.drop_last();
        let a = path_hits(d, prefix);
        let all = path_hits(rows, prefix);
        lemma_path_hits(d, prefix, p);
        assert(rows[rows.len() - 1] == rows.last());
        if is_flagged(all, p) {
            let i = choose|i: int| 0 <= i < all.len() && (#[trigger] all[i]).path == p;
            if i < a.len() {
                assert(a[i].path == p);
                let k = choose|k: int|
                    0 <= k < d.len() && (#[trigger] d[k]).path == p && d[k].status != "skipped"@ && in_prefix(prefix, p);
                assert(rows[k] == d[k]);
            } else {
                assert(all[i].path == rows.last().path);
            }
        }
        if has_live_row(rows, prefix, p) && path_label(p) is Some {
            let k = choose|k: int|
                0 <= k < rows.len() && (#[trigger] rows[k]).path == p && rows[k].status != "skipped"@ && in_prefix(prefix, p);
            if k < d.len() {
                assert(d[k] == rows[k]);
                let i = choose|i: int| 0 <= i < a.len() && (#[trigger] a[i]).path == p;
                assert(all[i].path == p);
            } else {
                assert(all[a.len() as int].path == p);
            }
        }
    }
}

proof fn lemma_row_of(rows: Seq<RowView>, p: Seq<char>, prefix: Option<Seq<char>>)
    requires
        one_row_per_path(rows),
    ensures
        (row_of(rows, p) is Some && is_live(row_of(rows, p)->0, prefix)) <==> has_live_row(rows, prefix, p),
    decreases rows.len(),
{
    if rows.len() > 0 {
        let d = rows.drop_last();
        assert forall|i: int, j: int|
            0 <= i < d.len() && 0 <= j < d.len() && (#[trigger] d[i]).path == (#[trigger] d[j]).path implies i == j by {
            assert(d[i] == rows[i] && d[j] == rows[j]);
        }
        lemma_row_of(d, p, prefix);
        let l = rows.len() - 1;
        assert(rows[l] == rows.last());
        if rows.last().path == p {
            if has_live_row(rows, prefix, p) {
                let k = choose|k: int|
                    0 <= k < rows.len() && (#[trigger] rows[k]).path == p && rows[k].status != "skipped"@ && in_prefix(prefix, p);
                assert(rows[k].path == rows[l].path);
            }
        } else {
            if has_live_row(rows, prefix, p) {
                let k = choose|k: int|
                    0 <= k < rows.len() && (#[trigger] rows[k]).path == p && rows[k].status != "skipped"@ && in_prefix(prefix, p);
                assert(d[k] == rows[k]);
            }
            if has_live_row(d, prefix, p) {
                let k = choose|k: int|
                    0 <= k < d.len() && (#[trigger] d[k]).path == p && d[k].status != "skipped"@ && in_prefix(prefix, p);
                assert(d[k] == rows[k]);
            }
        }
    }
}

proof fn lemma_chunk_hits(
    hits: Seq<HitView>,
    rows: Seq<RowView>,
    chunks: Seq<(Seq<char>, Seq<char>)>,
    prefix: Option<Seq<char>>,
    p: Seq<char>,
)
    requires
        one_row_per_path(rows),
    ensures
        is_flagged(with_chunk_hits(hits, rows, chunks, prefix), p) <==> is_flagged(hits, p) || (has_live_row(rows, prefix, p)
            && exists|k: int| 0 <= k < chunks.len() && (#[trigger] chunks[k]).0 == p && content_label(chunks[k].1) is Some),
    decreases chunks.len(),
{
    if chunks.len() > 0 {
        let d = chunks.drop_last();
        let a = with_chunk_hits(hits, rows, d, prefix);
        let all = with_chunk_hits(hits, rows, chunks, prefix);
        lemma_chunk_hits(hits, rows, d, prefix, p);
        lemma_row_of(rows, p, prefix);
        let x = chunks.last();
        assert(chunks[chunks.len() - 1] == x);
        if is_flagged(a, p) {
            let i = choose|i: int| 0 <= i < a.len() && (#[trigger] a[i]).path == p;
            assert(all[i].path == p);
        }
        if is_flagged(all, p) && !is_flagged(a, p) {
            let i = choose|i: int| 0 <= i < all.len() && (#[trigger] all[i]).path == p;
            if i < a.len() {
                assert(a[i].path == p);
            }
            assert(all[i].path == x.0);
        }
        if exists|k: int| 0 <= k < d.len() && (#[trigger] d[k]).0 == p && content_label(d[k].1) is Some {
            let k = choose|k: int| 0 <= k < d.len() && (#[trigger] d[k]).0 == p && content_label(d[k].1) is Some;
            assert(chunks[k] == d[k]);
        }
        if has_live_row(rows, prefix, p) && exists|k: int|
            0 <= k < chunks.len() && (#[trigger] chunks[k]).0 == p && content_label(chunks[k].1) is Some {
            let k = choose|k: int| 0 <= k < chunks.len() && (#[trigger] chunks[k]).0 == p && content_label(chunks[k].1) is Some;
            if k < d.len() {
                assert(d[k] == chunks[k]);
                assert(is_flagged(a, p));
            } else if !is_flagged(a, p) {
                assert(all[a.len() as int].path == p);
            }
        }
    }
}

/// A sweep finds every live row within the prefix whose path, or one of whose
/// chunks, gives a secret away, and finds no other.
pub proof fn law_sweep_finds_every_secret(
    rows: Seq<RowView>,
    chunks: Seq<(Seq<char>, Seq<char>)>,
    prefix: Option<Seq<char>>,
    p: Seq<char>,
)
    requires
        one_row_per_path(rows),
    ensures
        is_flagged(with_chunk_hits(path_hits(rows, prefix), rows, chunks, prefix), p) <==> has_live_row(rows, prefix, p) && (
        path_label(p) is Some || exists|k: int|
            0 <= k < chunks.len() && (#[trigger] chunks[k]).0 == p && content_label(chunks[k].1) is Some),
{
    lemma_path_hits(rows, prefix, p);
    lemma_chunk_hits(path_hits(rows, prefix), rows, chunks, prefix, p);
}

} // verus!
