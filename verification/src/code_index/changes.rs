//! Change detection: what the committed tree asks of the rows that the index
//! holds.

use vstd::prelude::*;

use crate::code_index::rows::{
    files_view, lemma_files_push, one_row_per_path, opt_str_view, rows_view, scopes_view, CodeFileRow, FileView, RowView,
    ScopeRow, ScopeView, TrackedFile,
};
use crate::code_index::scope::{
    category_for, dir_owns, governing_category, guarded, owning, owning_dir, owns, pair_view, pairs_view, Category,
};
use crate::code_index::secrets;
use crate::error::KbError;
use crate::order::{add_text, ascending, lemma_sorted_set, sort_texts, sorted, sorted_set};
use crate::text::{
    char_position, chars_of, find_char, head, last_position, lemma_texts_push, listed, push_all, push_text, rfind,
    same_text, split, split_char, string_of, texts, trim_end_of, trimmed_end_of, views,
};

verus! {

// --- the path prefix ---

/// The prefix without trailing slashes: `src/` and `src` select the same files.
pub open spec fn bare_prefix(prefix: Seq<char>) -> Seq<char> {
    trim_end_of(prefix, '/', '/')
}

/// Whether a run over `prefix` concerns `path`: it is the prefix or lies under
/// it. A run without a prefix concerns every path.
pub open spec fn in_prefix(prefix: Option<Seq<char>>, path: Seq<char>) -> bool {
    match prefix {
        Some(p) => owns(bare_prefix(p), path),
        None => true,
    }
}

/// A trailing slash on the prefix makes no difference.
pub proof fn law_trailing_slash_is_ignored(prefix: Seq<char>, path: Seq<char>)
    ensures
        in_prefix(Some(prefix.push('/')), path) == in_prefix(Some(prefix), path),
{
    assert(prefix.push('/').drop_last() =~= prefix);
}

/// Whether a run over `path_prefix` concerns `path`.
pub fn prefix_matcher(path_prefix: Option<&str>, path: &str) -> (r: bool)
    ensures
        r == in_prefix(opt_str_view(path_prefix), path@),
{
    match path_prefix {
        Some(p) => {
            let pc = chars_of(p);
            let bare = trimmed_end_of(pc.as_slice(), '/', '/');
            let path_chars = chars_of(path);
            dir_owns(bare, path_chars.as_slice())
        },
        None => true,
    }
}

// --- changes ---

/// Whether a run looks for renames between the commit that was indexed last and
/// the one at hand: there is such a commit, it is another one, and the
/// repository still has it.
pub fn detects_renames(indexed_head: Option<&str>, head: &str, is_commit: bool) -> (r: bool)
    ensures
        r == (indexed_head is Some && indexed_head->0@ != head@ && is_commit),
{
    match indexed_head {
        Some(prev) => !same_text(prev, head) && is_commit,
        None => false,
    }
}

/// What a run has to do: the files to chunk anew, the paths whose rows go, and
/// the rows that move to another path.
#[derive(Debug, Clone)]
pub struct Changes {
    pub add_or_modify: Vec<TrackedFile>,
    pub delete: Vec<String>,
    pub moved: Vec<(String, String)>,
}

/// What the changes say.
pub ghost struct ChangesView {
    pub add_or_modify: Seq<FileView>,
    pub delete: Seq<Seq<char>>,
    pub moved: Seq<(Seq<char>, Seq<char>)>,
}

impl View for Changes {
    type V = ChangesView;

    open spec fn view(&self) -> ChangesView {
        ChangesView {
            add_or_modify: files_view(self.add_or_modify@),
            delete: texts(self.delete@),
            moved: pairs_view(self.moved@),
        }
    }
}

/// The blob of the row at a path.
pub open spec fn row_blob(rows: Seq<RowView>, path: Seq<char>) -> Option<Seq<char>>
    decreases rows.len(),
{
    if rows.len() == 0 {
        None
    } else if rows.last().path == path {
        Some(rows.last().blob)
    } else {
        row_blob(rows.drop_last(), path)
    }
}

/// The blob of the tree's file at a path.
pub open spec fn tree_blob(tree: Seq<FileView>, path: Seq<char>) -> Option<Seq<char>>
    decreases tree.len(),
{
    if tree.len() == 0 {
        None
    } else if tree.last().path == path {
        Some(tree.last().blob)
    } else {
        tree_blob(tree.drop_last(), path)
    }
}

/// Whether a rename only moves rows: the content is the same, the new path has
/// no row yet, and the old one is gone from the tree.
pub open spec fn is_move(rows: Seq<RowView>, tree: Seq<FileView>, rename: (Seq<char>, Seq<char>)) -> bool {
    &&& row_blob(rows, rename.0) is Some
    &&& tree_blob(tree, rename.1) == row_blob(rows, rename.0)
    &&& row_blob(rows, rename.1) is None
    &&& tree_blob(tree, rename.0) is None
}

/// The renames that only move rows.
pub open spec fn moves(rows: Seq<RowView>, tree: Seq<FileView>, renames: Seq<(Seq<char>, Seq<char>)>) -> Seq<
    (Seq<char>, Seq<char>),
>
    decreases renames.len(),
{
    if renames.len() == 0 {
        Seq::empty()
    } else {
        let rest = moves(rows, tree, renames.drop_last());
        if is_move(rows, tree, renames.last()) {
            rest.push(renames.last())
        } else {
            rest
        }
    }
}

/// Whether some row moves away from the path.
pub open spec fn moved_from(m: Seq<(Seq<char>, Seq<char>)>, path: Seq<char>) -> bool {
    exists|i: int| 0 <= i < m.len() && (#[trigger] m[i]).0 == path
}

/// Whether some row moves to the path.
pub open spec fn moved_to(m: Seq<(Seq<char>, Seq<char>)>, path: Seq<char>) -> bool {
    exists|i: int| 0 <= i < m.len() && (#[trigger] m[i]).1 == path
}

/// Whether a file of the tree has to be chunked: its blob is not its row's.
pub open spec fn is_new_content(rows: Seq<RowView>, m: Seq<(Seq<char>, Seq<char>)>, f: FileView) -> bool {
    !moved_to(m, f.path) && row_blob(rows, f.path) != Some(f.blob)
}

/// The files to chunk, in the tree's order, that the prefix concerns.
pub open spec fn to_chunk(
    rows: Seq<RowView>,
    m: Seq<(Seq<char>, Seq<char>)>,
    tree: Seq<FileView>,
    prefix: Option<Seq<char>>,
) -> Seq<FileView>
    decreases tree.len(),
{
    if tree.len() == 0 {
        Seq::empty()
    } else {
        let rest = to_chunk(rows, m, tree.drop_last(), prefix);
        let f = tree.last();
        if is_new_content(rows, m, f) && in_prefix(prefix, f.path) {
            rest.push(f)
        } else {
            rest
        }
    }
}

/// The paths of the rows that neither stand in the tree nor move, in the rows'
/// order, that the prefix concerns.
pub open spec fn to_delete(
    rows: Seq<RowView>,
    tree: Seq<FileView>,
    m: Seq<(Seq<char>, Seq<char>)>,
    prefix: Option<Seq<char>>,
) -> Seq<Seq<char>>
    decreases rows.len(),
{
    if rows.len() == 0 {
        Seq::empty()
    } else {
        let rest = to_delete(rows.drop_last(), tree, m, prefix);
        let p = rows.last().path;
        if tree_blob(tree, p) is None && !moved_from(m, p) && in_prefix(prefix, p) {
            rest.push(p)
        } else {
            rest
        }
    }
}

/// The moves that the prefix concerns, at either end.
pub open spec fn moves_in(m: Seq<(Seq<char>, Seq<char>)>, prefix: Option<Seq<char>>) -> Seq<(Seq<char>, Seq<char>)>
    decreases m.len(),
{
    if m.len() == 0 {
        Seq::empty()
    } else {
        let rest = moves_in(m.drop_last(), prefix);
        if in_prefix(prefix, m.last().0) || in_prefix(prefix, m.last().1) {
            rest.push(m.last())
        } else {
            rest
        }
    }
}

/// What the tree asks of the rows.
pub open spec fn changes_of(
    rows: Seq<RowView>,
    tree: Seq<FileView>,
    renames: Seq<(Seq<char>, Seq<char>)>,
    prefix: Option<Seq<char>>,
) -> ChangesView {
    let m = moves(rows, tree, renames);
    ChangesView {
        add_or_modify: to_chunk(rows, m, tree, prefix),
        delete: sorted(to_delete(rows, tree, m, prefix)),
        moved: moves_in(m, prefix),
    }
}

/// Whether the prefix concerns any file of the tree.
pub open spec fn prefix_matches(tree: Seq<FileView>, prefix: Option<Seq<char>>) -> bool {
    prefix is None || exists|i: int| 0 <= i < tree.len() && in_prefix(prefix, (#[trigger] tree[i]).path)
}

pub proof fn lemma_row_blob(rows: Seq<RowView>, path: Seq<char>)
    ensures
        row_blob(rows, path) is Some <==> exists|i: int| 0 <= i < rows.len() && (#[trigger] rows[i]).path == path,
        one_row_per_path(rows) ==> forall|i: int|
            0 <= i < rows.len() && (#[trigger] rows[i]).path == path ==> row_blob(rows, path) == Some(rows[i].blob),
    decreases rows.len(),
{
    if rows.len() > 0 {
        let d = rows.drop_last();
        lemma_row_blob(d, path);
        if rows.last().path == path {
            assert(rows[rows.len() - 1].path == path);
        } else {
            if row_blob(d, path) is Some {
                let i = choose|i: int| 0 <= i < d.len() && (#[trigger] d[i]).path == path;
                assert(rows[i].path == path);
            }
            if exists|i: int| 0 <= i < rows.len() && (#[trigger] rows[i]).path == path {
                let i = choose|i: int| 0 <= i < rows.len() && (#[trigger] rows[i]).path == path;
                assert(d[i].path == path);
            }
        }
        if one_row_per_path(rows) {
            assert forall|i: int| 0 <= i < rows.len() && (#[trigger] rows[i]).path == path implies row_blob(rows, path)
                == Some(rows[i].blob) by {
                if i < d.len() {
                    assert(d[i].path == path);
                    assert(one_row_per_path(d)) by {
                        assert forall|x: int, y: int|
                            0 <= x < d.len() && 0 <= y < d.len() && (#[trigger] d[x]).path == (
                            #[trigger] d[y]).path implies x == y by {
                            assert(rows[x].path == rows[y].path);
                        }
                    }
                    assert(rows[i].path == path && rows[rows.len() - 1].path == rows.last().path);
                }
            }
        }
    }
}

/// The index of the row at a path.
pub fn row_at(rows: &Vec<CodeFileRow>, path: &str) -> (r: Option<usize>)
    ensures
        r is Some == row_blob(rows_view(rows@), path@) is Some,
        r is Some ==> r->0 < rows@.len() && rows@[r->0 as int].path@ == path@ && row_blob(rows_view(rows@), path@) == Some(
            rows@[r->0 as int].blob@,
        ),
{
    let ghost rv = rows_view(rows@);
    let mut n: usize = rows.len();
    assert(rv.take(n as int) =~= rv);
    while n > 0
        invariant
            n <= rows@.len(),
            rv == rows_view(rows@),
            row_blob(rv.take(n as int), path@) == row_blob(rv, path@),
        decreases n,
    {
        assert(rv.take(n as int).last() == rows@[n - 1]@);
        assert(rv.take(n as int).drop_last() =~= rv.take(n - 1));
        if same_text(rows[n - 1].path.as_str(), path) {
            return Some(n - 1);
        }
        n = n - 1;
    }
    None
}

/// The index of the tree's file at a path.
fn tree_at(tree: &Vec<TrackedFile>, path: &str) -> (r: Option<usize>)
    ensures
        r is Some == tree_blob(files_view(tree@), path@) is Some,
        r is Some ==> r->0 < tree@.len() && tree_blob(files_view(tree@), path@) == Some(tree@[r->0 as int].blob@),
{
    let ghost tv = files_view(tree@);
    let mut n: usize = tree.len();
    assert(tv.take(n as int) =~= tv);
    while n > 0
        invariant
            n <= tree@.len(),
            tv == files_view(tree@),
            tree_blob(tv.take(n as int), path@) == tree_blob(tv, path@),
        decreases n,
    {
        assert(tv.take(n as int).last() == tree@[n - 1]@);
        assert(tv.take(n as int).drop_last() =~= tv.take(n - 1));
        if same_text(tree[n - 1].path.as_str(), path) {
            return Some(n - 1);
        }
        n = n - 1;
    }
    None
}

fn is_pure_move(rows: &Vec<CodeFileRow>, tree: &Vec<TrackedFile>, from: &str, to: &str) -> (r: bool)
    ensures
        r == is_move(rows_view(rows@), files_view(tree@), (from@, to@)),
{
    let same_blob: bool = match row_at(rows, from) {
        Some(i) => match tree_at(tree, to) {
            Some(j) => same_text(rows[i].blob.as_str(), tree[j].blob.as_str()),
            None => false,
        },
        None => false,
    };
    same_blob && row_at(rows, to).is_none() && tree_at(tree, from).is_none()
}

fn pure_moves(rows: &Vec<CodeFileRow>, tree: &Vec<TrackedFile>, renames: &Vec<(String, String)>) -> (r: Vec<
    (String, String),
>)
    ensures
        pairs_view(r@) == moves(rows_view(rows@), files_view(tree@), pairs_view(renames@)),
{
    let ghost rv = rows_view(rows@);
    let ghost tv = files_view(tree@);
    let ghost nv = pairs_view(renames@);
    let mut out: Vec<(String, String)> = Vec::new();
    let mut i: usize = 0;
    assert(pairs_view(out@) =~= moves(rv, tv, nv.take(0)));
    while i < renames.len()
        invariant
            i <= renames@.len(),
            rv == rows_view(rows@),
            tv == files_view(tree@),
            nv == pairs_view(renames@),
            pairs_view(out@) == moves(rv, tv, nv.take(i as int)),
        decreases renames@.len() - i,
    {
        assert(nv.take(i + 1).drop_last() =~= nv.take(i as int));
        if is_pure_move(rows, tree, renames[i].0.as_str(), renames[i].1.as_str()) {
            let ghost done = out@;
            let m = (renames[i].0.clone(), renames[i].1.clone());
            out.push(m);
            assert(pairs_view(out@) =~= pairs_view(done).push(pair_view(m)));
        }
        i = i + 1;
    }
    assert(nv.take(i as int) =~= nv);
    out
}

fn any_from(m: &Vec<(String, String)>, path: &str) -> (r: bool)
    ensures
        r == moved_from(pairs_view(m@), path@),
{
    let ghost mv = pairs_view(m@);
    let mut i: usize = 0;
    while i < m.len()
        invariant
            i <= m@.len(),
            mv == pairs_view(m@),
            forall|j: int| 0 <= j < i ==> (#[trigger] mv[j]).0 != path@,
        decreases m@.len() - i,
    {
        if same_text(m[i].0.as_str(), path) {
            assert(mv[i as int].0 == path@);
            return true;
        }
        i = i + 1;
    }
    false
}

fn any_to(m: &Vec<(String, String)>, path: &str) -> (r: bool)
    ensures
        r == moved_to(pairs_view(m@), path@),
{
    let ghost mv = pairs_view(m@);
    let mut i: usize = 0;
    while i < m.len()
        invariant
            i <= m@.len(),
            mv == pairs_view(m@),
            forall|j: int| 0 <= j < i ==> (#[trigger] mv[j]).1 != path@,
        decreases m@.len() - i,
    {
        if same_text(m[i].1.as_str(), path) {
            assert(mv[i as int].1 == path@);
            return true;
        }
        i = i + 1;
    }
    false
}

fn matches_some(tree: &Vec<TrackedFile>, prefix: Option<&str>) -> (r: bool)
    ensures
        r == exists|i: int| 0 <= i < tree@.len() && in_prefix(opt_str_view(prefix), (#[trigger] files_view(tree@)[i]).path),
{
    let ghost tv = files_view(tree@);
    let mut i: usize = 0;
    while i < tree.len()
        invariant
            i <= tree@.len(),
            tv == files_view(tree@),
            forall|j: int| 0 <= j < i ==> !in_prefix(opt_str_view(prefix), (#[trigger] tv[j]).path),
        decreases tree@.len() - i,
    {
        if prefix_matcher(prefix, tree[i].path.as_str()) {
            assert(in_prefix(opt_str_view(prefix), tv[i as int].path));
            return true;
        }
        i = i + 1;
    }
    false
}

/// Compares the rows with the committed tree. A file whose blob is its row's
/// is left alone; the renames (those that git reports between the last indexed
/// commit and this one) only serve to move rows. A prefix that concerns no
/// file of the tree is refused.
pub fn compute_changes(
    rows: &Vec<CodeFileRow>,
    tree: &Vec<TrackedFile>,
    renames: &Vec<(String, String)>,
    path_prefix: Option<&str>,
) -> (r: Result<Changes, KbError>)
    ensures
        r is Err ==> r->Err_0 is Other,
        r is Ok <==> prefix_matches(files_view(tree@), opt_str_view(path_prefix)),
        r is Ok ==> r->Ok_0@ == changes_of(
            rows_view(rows@),
            files_view(tree@),
            pairs_view(renames@),
            opt_str_view(path_prefix),
        ),
        r is Err ==> r->Err_0@ == "--path-prefix '"@ + bare_prefix(path_prefix->0@) + "' matches no tracked files"@,
{
    let ghost rv = rows_view(rows@);
    let ghost tv = files_view(tree@);
    let ghost prefix = opt_str_view(path_prefix);
    if let Some(raw) = path_prefix {
        if !matches_some(tree, path_prefix) {
            let rc = chars_of(raw);
            let mut m = chars_of("--path-prefix '");
            push_all(&mut m, trimmed_end_of(rc.as_slice(), '/', '/'));
            push_text(&mut m, "' matches no tracked files");
            return Err(KbError::Other(string_of(m.as_slice())));
        }
    }
    let all_moves = pure_moves(rows, tree, renames);
    let ghost mv = pairs_view(all_moves@);

    let mut add_or_modify: Vec<TrackedFile> = Vec::new();
    let mut i: usize = 0;
    assert(files_view(add_or_modify@) =~= to_chunk(rv, mv, tv.take(0), prefix));
    while i < tree.len()
        invariant
            i <= tree@.len(),
            rv == rows_view(rows@),
            tv == files_view(tree@),
            mv == pairs_view(all_moves@),
            prefix == opt_str_view(path_prefix),
            files_view(add_or_modify@) == to_chunk(rv, mv, tv.take(i as int), prefix),
        decreases tree@.len() - i,
    {
        assert(tv.take(i + 1).drop_last() =~= tv.take(i as int));
        assert(tv.take(i + 1).last() == tree@[i as int]@);
        let f: &TrackedFile = &tree[i];
        let known: bool = match row_at(rows, f.path.as_str()) {
            Some(k) => same_text(rows[k].blob.as_str(), f.blob.as_str()),
            None => false,
        };
        if !known && !any_to(&all_moves, f.path.as_str()) && prefix_matcher(path_prefix, f.path.as_str()) {
            let c = f.copied();
            proof {
                lemma_files_push(add_or_modify@, c);
            }
            add_or_modify.push(c);
        }
        i = i + 1;
    }
    assert(tv.take(i as int) =~= tv);

    let mut gone: Vec<String> = Vec::new();
    let mut j: usize = 0;
    assert(texts(gone@) =~= to_delete(rv.take(0), tv, mv, prefix));
    while j < rows.len()
        invariant
            j <= rows@.len(),
            rv == rows_view(rows@),
            tv == files_view(tree@),
            mv == pairs_view(all_moves@),
            prefix == opt_str_view(path_prefix),
            texts(gone@) == to_delete(rv.take(j as int), tv, mv, prefix),
        decreases rows@.len() - j,
    {
        assert(rv.take(j + 1).drop_last() =~= rv.take(j as int));
        assert(rv.take(j + 1).last() == rows@[j as int]@);
        let p: &str = rows[j].path.as_str();
        if tree_at(tree, p).is_none() && !any_from(&all_moves, p) && prefix_matcher(path_prefix, p) {
            let d = rows[j].path.clone();
            proof {
                lemma_texts_push(gone@, d);
            }
            gone.push(d);
        }
        j = j + 1;
    }
    assert(rv.take(j as int) =~= rv);
    let delete = sort_texts(&gone);

    let mut moved: Vec<(String, String)> = Vec::new();
    let mut k: usize = 0;
    assert(pairs_view(moved@) =~= moves_in(mv.take(0), prefix));
    while k < all_moves.len()
        invariant
            k <= all_moves@.len(),
            mv == pairs_view(all_moves@),
            prefix == opt_str_view(path_prefix),
            pairs_view(moved@) == moves_in(mv.take(k as int), prefix),
        decreases all_moves@.len() - k,
    {
        assert(mv.take(k + 1).drop_last() =~= mv.take(k as int));
        assert(mv.take(k + 1).last() == pair_view(all_moves@[k as int]));
        if prefix_matcher(path_prefix, all_moves[k].0.as_str()) || prefix_matcher(path_prefix, all_moves[k].1.as_str()) {
            let ghost done = moved@;
            let m = (all_moves[k].0.clone(), all_moves[k].1.clone());
            moved.push(m);
            assert(pairs_view(moved@) =~= pairs_view(done).push(pair_view(m)));
        }
        k = k + 1;
    }
    assert(mv.take(k as int) =~= mv);
    Ok(Changes { add_or_modify, delete, moved })
}

// --- scope ---

/// The files whose governing category is indexed.
pub open spec fn in_scope(rows: Seq<ScopeView>, files: Seq<FileView>) -> Seq<FileView>
    decreases files.len(),
{
    if files.len() == 0 {
        Seq::empty()
    } else {
        let rest = in_scope(rows, files.drop_last());
        if governing_category(rows, files.last().path).is_indexed() {
            rest.push(files.last())
        } else {
            rest
        }
    }
}

/// Keeps the files that are product, tests or docs.
pub fn filter_in_scope(scope_rows: &Vec<ScopeRow>, files: &Vec<TrackedFile>) -> (r: Vec<TrackedFile>)
    ensures
        files_view(r@) == in_scope(scopes_view(scope_rows@), files_view(files@)),
{
    let ghost sv = scopes_view(scope_rows@);
    let ghost fv = files_view(files@);
    let mut out: Vec<TrackedFile> = Vec::new();
    let mut i: usize = 0;
    assert(files_view(out@) =~= in_scope(sv, fv.take(0)));
    while i < files.len()
        invariant
            i <= files@.len(),
            sv == scopes_view(scope_rows@),
            fv == files_view(files@),
            files_view(out@) == in_scope(sv, fv.take(i as int)),
        decreases files@.len() - i,
    {
        assert(fv.take(i + 1).drop_last() =~= fv.take(i as int));
        assert(fv.take(i + 1).last() == files@[i as int]@);
        if category_for(scope_rows.as_slice(), files[i].path.as_str()).indexed() {
            let c = files[i].copied();
            proof {
                lemma_files_push(out@, c);
            }
            out.push(c);
        }
        i = i + 1;
    }
    assert(fv.take(i as int) =~= fv);
    out
}

/// The part of each path before its first slash, for the paths that have one.
pub open spec fn top_parts(files: Seq<FileView>) -> Seq<Seq<char>>
    decreases files.len(),
{
    if files.len() == 0 {
        Seq::empty()
    } else {
        let rest = top_parts(files.drop_last());
        let p = files.last().path;
        let k = find_char(p, '/');
        if k < p.len() {
            rest.push(p.take(k))
        } else {
            rest
        }
    }
}

/// The top-level directories of the tree, in order, each once.
pub fn top_level_dirs(tree: &Vec<TrackedFile>) -> (r: Vec<String>)
    ensures
        texts(r@) == sorted_set(top_parts(files_view(tree@))),
        ascending(texts(r@)),
{
    let ghost fv = files_view(tree@);
    let mut out: Vec<String> = Vec::new();
    let mut i: usize = 0;
    assert(top_parts(fv.take(0)) =~= Seq::empty());
    assert(texts(out@) =~= sorted_set(top_parts(fv.take(0))));
    while i < tree.len()
        invariant
            i <= tree@.len(),
            fv == files_view(tree@),
            texts(out@) == sorted_set(top_parts(fv.take(i as int))),
        decreases tree@.len() - i,
    {
        assert(fv.take(i + 1).drop_last() =~= fv.take(i as int));
        let pc = chars_of(tree[i].path.as_str());
        let k: usize = char_position(pc.as_slice(), '/');
        if k < pc.len() {
            let top = string_of(head(pc.as_slice(), k));
            add_text(&mut out, top.as_str());
            assert(top_parts(fv.take(i + 1)).drop_last() =~= top_parts(fv.take(i as int)));
        }
        i = i + 1;
    }
    assert(fv.take(i as int) =~= fv);
    proof {
        lemma_sorted_set(top_parts(fv));
    }
    out
}

// --- ancestors ---

/// The directory that a path lies in; empty for a path without one.
pub open spec fn parent(path: Seq<char>) -> Seq<char> {
    let k = rfind(path, "/"@);
    if k >= 0 {
        path.take(k)
    } else {
        Seq::empty()
    }
}

/// The directory that `path` lies in.
pub fn parent_dir(path: &str) -> (r: String)
    ensures
        r@ == parent(path@),
{
    let pc = chars_of(path);
    match last_position(pc.as_slice(), "/") {
        Some(k) => string_of(head(pc.as_slice(), k)),
        None => String::new(),
    }
}

/// The summaries above a file: its first two directories, each with a slash
/// behind it, and the repository's own, `/`.
pub open spec fn ancestors(path: Seq<char>) -> Seq<Seq<char>> {
    let c = split(path, '/');
    if c.len() <= 1 {
        seq!["/"@]
    } else if c.len() == 2 {
        seq![c[0] + "/"@, "/"@]
    } else {
        seq![c[0] + "/"@, c[0] + "/"@ + c[1] + "/"@, "/"@]
    }
}

/// The paths of the summaries above a file.
pub fn ancestor_summary_paths(path: &str) -> (r: Vec<String>)
    ensures
        texts(r@) == ancestors(path@),
{
    let pc = chars_of(path);
    let segments = split_char(pc.as_slice(), '/');
    let ghost c = views(segments@);
    let mut out: Vec<String> = Vec::new();
    if segments.len() > 1 {
        assert(c[0] == segments@[0]@);
        let mut prefix = crate::text::copy_of(segments[0]);
        push_text(&mut prefix, "/");
        out.push(string_of(prefix.as_slice()));
        if segments.len() > 2 {
            assert(c[1] == segments@[1]@);
            push_all(&mut prefix, segments[1]);
            push_text(&mut prefix, "/");
            out.push(string_of(prefix.as_slice()));
        }
    }
    out.push(crate::text::owned("/"));
    assert(texts(out@) =~= ancestors(path@));
    out
}

// --- rows that no longer belong ---

/// Whether a row's file has been scoped out of the index.
pub open spec fn scoped_out(scopes: Seq<ScopeView>, prefix: Option<Seq<char>>, path: Seq<char>) -> bool {
    in_prefix(prefix, path) && !governing_category(scopes, path).is_indexed()
}

/// The paths that have been scoped out.
pub open spec fn out_of_scope(scopes: Seq<ScopeView>, prefix: Option<Seq<char>>, paths: Seq<Seq<char>>) -> Seq<Seq<char>>
    decreases paths.len(),
{
    if paths.len() == 0 {
        Seq::empty()
    } else {
        let rest = out_of_scope(scopes, prefix, paths.drop_last());
        if scoped_out(scopes, prefix, paths.last()) {
            rest.push(paths.last())
        } else {
            rest
        }
    }
}

/// The summaries above any of the paths.
pub open spec fn ancestors_of_all(paths: Seq<Seq<char>>) -> Seq<Seq<char>>
    decreases paths.len(),
{
    if paths.len() == 0 {
        Seq::empty()
    } else {
        ancestors_of_all(paths.drop_last()) + ancestors(paths.last())
    }
}

/// The directories that put the paths out of scope by being vendored.
pub open spec fn vendored_owners(scopes: Seq<ScopeView>, paths: Seq<Seq<char>>) -> Seq<Seq<char>>
    decreases paths.len(),
{
    if paths.len() == 0 {
        Seq::empty()
    } else {
        let rest = vendored_owners(scopes, paths.drop_last());
        if governing_category(scopes, paths.last()) == Category::Vendored && owning(scopes, paths.last()) is Some {
            rest.push(owning(scopes, paths.last())->0)
        } else {
            rest
        }
    }
}

/// What a recategorisation asks for: the files whose rows, symbols and
/// summaries go, the summaries that are stale without them, and the vendored
/// directories that earn a memory.
#[derive(Debug, Clone)]
pub struct Recategorized {
    pub removed: Vec<String>,
    pub stale: Vec<String>,
    pub vendored_dirs: Vec<String>,
}

/// Adds texts at their places in the order.
pub(crate) fn add_texts(v: &mut Vec<String>, more: &Vec<String>, Ghost(base): Ghost<Seq<Seq<char>>>)
    requires
        texts(old(v)@) == sorted_set(base),
    ensures
        texts(final(v)@) == sorted_set(base + texts(more@)),
{
    let ghost mv = texts(more@);
    let mut i: usize = 0;
    assert(base + mv.take(0) =~= base);
    while i < more.len()
        invariant
            i <= more@.len(),
            mv == texts(more@),
            texts(v@) == sorted_set(base + mv.take(i as int)),
        decreases more@.len() - i,
    {
        add_text(v, more[i].as_str());
        assert((base + mv.take(i + 1)).drop_last() =~= base + mv.take(i as int));
        i = i + 1;
    }
    assert(base + mv.take(i as int) =~= base + mv);
}

/// Finds the rows of files that are scoped out of the index since they were
/// indexed.
pub fn cleanup_recategorized_files(paths: &Vec<String>, scope_rows: &Vec<ScopeRow>, path_prefix: Option<&str>) -> (r:
    Recategorized)
    ensures
        texts(r.removed@) == out_of_scope(scopes_view(scope_rows@), opt_str_view(path_prefix), texts(paths@)),
        texts(r.stale@) == sorted_set(ancestors_of_all(texts(r.removed@))),
        texts(r.vendored_dirs@) == sorted_set(vendored_owners(scopes_view(scope_rows@), texts(r.removed@))),
{
    let ghost sv = scopes_view(scope_rows@);
    let ghost prefix = opt_str_view(path_prefix);
    let ghost pv = texts(paths@);
    let mut removed: Vec<String> = Vec::new();
    let mut stale: Vec<String> = Vec::new();
    let mut vendored_dirs: Vec<String> = Vec::new();
    let mut i: usize = 0;
    proof {
        assert(texts(removed@) =~= out_of_scope(sv, prefix, pv.take(0)));
        assert(texts(stale@) =~= sorted_set(ancestors_of_all(texts(removed@))));
        assert(texts(vendored_dirs@) =~= sorted_set(vendored_owners(sv, texts(removed@))));
    }
    while i < paths.len()
        invariant
            i <= paths@.len(),
            sv == scopes_view(scope_rows@),
            prefix == opt_str_view(path_prefix),
            pv == texts(paths@),
            texts(removed@) == out_of_scope(sv, prefix, pv.take(i as int)),
            texts(stale@) == sorted_set(ancestors_of_all(texts(removed@))),
            texts(vendored_dirs@) == sorted_set(vendored_owners(sv, texts(removed@))),
        decreases paths@.len() - i,
    {
        assert(pv.take(i + 1).drop_last() =~= pv.take(i as int));
        let path: &str = paths[i].as_str();
        let category = category_for(scope_rows.as_slice(), path);
        if prefix_matcher(path_prefix, path) && !category.indexed() {
            let ghost done = texts(removed@);
            let above = ancestor_summary_paths(path);
            add_texts(&mut stale, &above, Ghost(ancestors_of_all(done)));
            let owner = owning_dir(scope_rows.as_slice(), path);
            if category == Category::Vendored {
                if let Some(dir) = owner {
                    add_text(&mut vendored_dirs, dir.as_str());
                }
            }
            let p = paths[i].clone();
            proof {
                lemma_texts_push(removed@, p);
                assert(done.push(path@).drop_last() =~= done);
                assert(vendored_owners(sv, done.push(path@)).len() > vendored_owners(sv, done).len() ==> vendored_owners(
                    sv,
                    done.push(path@),
                ).drop_last() =~= vendored_owners(sv, done));
            }
            removed.push(p);
        }
        i = i + 1;
    }
    assert(pv.take(i as int) =~= pv);
    Recategorized { removed, stale, vendored_dirs }
}

// --- rows that hold a secret ---

/// A row to be marked as skipped, with the label of the secret it holds.
#[derive(Debug, Clone)]
pub struct SecretHit {
    pub path: String,
    pub blob: String,
    pub reason: &'static str,
}

/// What a hit says.
pub ghost struct HitView {
    pub path: Seq<char>,
    pub blob: Seq<char>,
    pub reason: Seq<char>,
}

impl View for SecretHit {
    type V = HitView;

    open spec fn view(&self) -> HitView {
        HitView { path: self.path@, blob: self.blob@, reason: self.reason@ }
    }
}

pub open spec fn hits_view(v: Seq<SecretHit>) -> Seq<HitView> {
    Seq::new(v.len(), |i: int| v[i]@)
}

/// Whether the row is still to be looked at: the prefix concerns it and it is
/// not skipped yet.
pub open spec fn is_live(row: RowView, prefix: Option<Seq<char>>) -> bool {
    row.status != "skipped"@ && in_prefix(prefix, row.path)
}

/// The live rows with a secret-bearing path.
pub open spec fn path_hits(rows: Seq<RowView>, prefix: Option<Seq<char>>) -> Seq<HitView>
    decreases rows.len(),
{
    if rows.len() == 0 {
        Seq::empty()
    } else {
        let rest = path_hits(rows.drop_last(), prefix);
        let row = rows.last();
        if is_live(row, prefix) && secrets::path_label(row.path) is Some {
            rest.push((HitView { path: row.path, blob: row.blob, reason: secrets::path_label(row.path)->0 }))
        } else {
            rest
        }
    }
}

/// Whether a hit on the path is known.
pub open spec fn is_flagged(hits: Seq<HitView>, path: Seq<char>) -> bool {
    exists|i: int| 0 <= i < hits.len() && (#[trigger] hits[i]).path == path
}

/// The last row at a path.
pub open spec fn row_of(rows: Seq<RowView>, path: Seq<char>) -> Option<RowView>
    decreases rows.len(),
{
    if rows.len() == 0 {
        None
    } else if rows.last().path == path {
        Some(rows.last())
    } else {
        row_of(rows.drop_last(), path)
    }
}

/// The hits, with those that the chunks' texts add: one for each live row that
/// is not flagged yet and of which some chunk holds a secret marker.
pub open spec fn with_chunk_hits(
    hits: Seq<HitView>,
    rows: Seq<RowView>,
    chunks: Seq<(Seq<char>, Seq<char>)>,
    prefix: Option<Seq<char>>,
) -> Seq<HitView>
    decreases chunks.len(),
{
    if chunks.len() == 0 {
        hits
    } else {
        let sofar = with_chunk_hits(hits, rows, chunks.drop_last(), prefix);
        let (path, text) = chunks.last();
        let row = row_of(rows, path);
        if !is_flagged(sofar, path) && row is Some && is_live(row->0, prefix) && secrets::content_label(text) is Some {
            sofar.push((HitView { path, blob: (row->0).blob, reason: secrets::content_label(text)->0 }))
        } else {
            sofar
        }
    }
}

/// The row at a path has that path.
pub proof fn lemma_row_of_path(rows: Seq<RowView>, path: Seq<char>)
    ensures
        row_of(rows, path) is Some ==> (row_of(rows, path)->0).path == path,
    decreases rows.len(),
{
    if rows.len() > 0 && rows.last().path != path {
        lemma_row_of_path(rows.drop_last(), path);
    }
}

pub(crate) fn find_row(rows: &Vec<CodeFileRow>, path: &str) -> (r: Option<usize>)
    ensures
        r is Some == row_of(rows_view(rows@), path@) is Some,
        r is Some ==> r->0 < rows@.len() && row_of(rows_view(rows@), path@) == Some(rows@[r->0 as int]@),
        r is Some ==> rows@[r->0 as int].path@ == path@,
{
    let ghost rv = rows_view(rows@);
    let mut n: usize = rows.len();
    assert(rv.take(n as int) =~= rv);
    while n > 0
        invariant
            n <= rows@.len(),
            rv == rows_view(rows@),
            row_of(rv.take(n as int), path@) == row_of(rv, path@),
        decreases n,
    {
        assert(rv.take(n as int).last() == rows@[n - 1]@);
        assert(rv.take(n as int).drop_last() =~= rv.take(n - 1));
        if same_text(rows[n - 1].path.as_str(), path) {
            return Some(n - 1);
        }
        n = n - 1;
    }
    None
}

fn flagged(hits: &Vec<SecretHit>, path: &str) -> (r: bool)
    ensures
        r == is_flagged(hits_view(hits@), path@),
{
    let ghost hv = hits_view(hits@);
    let mut i: usize = 0;
    while i < hits.len()
        invariant
            i <= hits@.len(),
            hv == hits_view(hits@),
            forall|j: int| 0 <= j < i ==> (#[trigger] hv[j]).path != path@,
        decreases hits@.len() - i,
    {
        if same_text(hits[i].path.as_str(), path) {
            assert(hv[i as int].path == path@);
            return true;
        }
        i = i + 1;
    }
    false
}

/// Finds the rows to be marked as skipped: those whose path, or the text of one
/// of whose chunks (given as path and text), is flagged as holding a secret.
pub fn sweep_secret_rows(rows: &Vec<CodeFileRow>, chunks: &Vec<(String, String)>, path_prefix: Option<&str>) -> (r: Vec<
    SecretHit,
>)
    ensures
        hits_view(r@) == with_chunk_hits(
            path_hits(rows_view(rows@), opt_str_view(path_prefix)),
            rows_view(rows@),
            pairs_view(chunks@),
            opt_str_view(path_prefix),
        ),
{
    let ghost rv = rows_view(rows@);
    let ghost cv = pairs_view(chunks@);
    let ghost prefix = opt_str_view(path_prefix);
    let mut hits: Vec<SecretHit> = Vec::new();
    let mut i: usize = 0;
    assert(hits_view(hits@) =~= path_hits(rv.take(0), prefix));
    while i < rows.len()
        invariant
            i <= rows@.len(),
            rv == rows_view(rows@),
            prefix == opt_str_view(path_prefix),
            hits_view(hits@) == path_hits(rv.take(i as int), prefix),
        decreases rows@.len() - i,
    {
        assert(rv.take(i + 1).drop_last() =~= rv.take(i as int));
        let row: &CodeFileRow = &rows[i];
        assert(rv.take(i + 1).last() == row@);
        if !same_text(row.status.as_str(), "skipped") && prefix_matcher(path_prefix, row.path.as_str()) {
            if let Some(reason) = secrets::path_reason(row.path.as_str()) {
                let h = SecretHit { path: row.path.clone(), blob: row.blob.clone(), reason };
                let ghost done = hits@;
                hits.push(h);
                assert(hits_view(hits@) =~= hits_view(done).push(h@));
            }
        }
        i = i + 1;
    }
    assert(rv.take(i as int) =~= rv);
    let ghost base = hits_view(hits@);
    let mut k: usize = 0;
    assert(cv.take(0) =~= Seq::empty());
    while k < chunks.len()
        invariant
            k <= chunks@.len(),
            rv == rows_view(rows@),
            cv == pairs_view(chunks@),
            prefix == opt_str_view(path_prefix),
            hits_view(hits@) == with_chunk_hits(base, rv, cv.take(k as int), prefix),
        decreases chunks@.len() - k,
    {
        assert(cv.take(k + 1).drop_last() =~= cv.take(k as int));
        let path: &str = chunks[k].0.as_str();
        let text: &str = chunks[k].1.as_str();
        assert(cv.take(k + 1).last() == (path@, text@));
        proof {
            lemma_row_of_path(rv, path@);
        }
        if !flagged(&hits, path) && prefix_matcher(path_prefix, path) {
            if let Some(reason) = secrets::content_reason(text) {
                if let Some(n) = find_row(rows, path) {
                    if !same_text(rows[n].status.as_str(), "skipped") {
                        let h = SecretHit { path: chunks[k].0.clone(), blob: rows[n].blob.clone(), reason };
                        let ghost done = hits@;
                        hits.push(h);
                        assert(hits_view(hits@) =~= hits_view(done).push(h@));
                    }
                }
            }
        }
        k = k + 1;
    }
    assert(cv.take(k as int) =~= cv);
    hits
}

// --- the index comes to mirror the tree ---

/// Which blob the index holds for each path.
pub open spec fn blobs_of_rows(rows: Seq<RowView>) -> Map<Seq<char>, Seq<char>> {
    Map::new(|p: Seq<char>| row_blob(rows, p) is Some, |p: Seq<char>| row_blob(rows, p)->0)
}

/// Which blob the tree holds for each path.
pub open spec fn blobs_of_tree(tree: Seq<FileView>) -> Map<Seq<char>, Seq<char>> {
    Map::new(|p: Seq<char>| tree_blob(tree, p) is Some, |p: Seq<char>| tree_blob(tree, p)->0)
}

/// The blobs without those at the deleted paths.
pub open spec fn after_deletes(m: Map<Seq<char>, Seq<char>>, gone: Seq<Seq<char>>) -> Map<Seq<char>, Seq<char>> {
    Map::new(|p: Seq<char>| m.contains_key(p) && !listed(gone, p), |p: Seq<char>| m[p])
}

/// The blobs once the moves are made, one after the other.
pub open spec fn after_moves(m: Map<Seq<char>, Seq<char>>, moved: Seq<(Seq<char>, Seq<char>)>) -> Map<
    Seq<char>,
    Seq<char>,
>
    decreases moved.len(),
{
    if moved.len() == 0 {
        m
    } else {
        let sofar = after_moves(m, moved.drop_last());
        let (from, to) = moved.last();
        if sofar.contains_key(from) {
            sofar.remove(from).insert(to, sofar[from])
        } else {
            sofar
        }
    }
}

/// The blobs once the files are chunked, one after the other.
pub open spec fn after_adds(m: Map<Seq<char>, Seq<char>>, files: Seq<FileView>) -> Map<Seq<char>, Seq<char>>
    decreases files.len(),
{
    if files.len() == 0 {
        m
    } else {
        after_adds(m, files.drop_last()).insert(files.last().path, files.last().blob)
    }
}

/// The blobs that the index holds once the changes are made.
pub open spec fn after_changes(m: Map<Seq<char>, Seq<char>>, c: ChangesView) -> Map<Seq<char>, Seq<char>> {
    after_adds(after_moves(after_deletes(m, c.delete), c.moved), c.add_or_modify)
}

/// No path occurs twice in the tree.
pub open spec fn one_file_per_path(tree: Seq<FileView>) -> bool {
    forall|i: int, j: int|
        0 <= i < tree.len() && 0 <= j < tree.len() && (#[trigger] tree[i]).path == (#[trigger] tree[j]).path ==> i == j
}

/// No path is renamed twice, and no two paths are renamed to one.
pub open spec fn distinct_renames(r: Seq<(Seq<char>, Seq<char>)>) -> bool {
    &&& forall|i: int, j: int| 0 <= i < r.len() && 0 <= j < r.len() && (#[trigger] r[i]).0 == (#[trigger] r[j]).0 ==> i == j
    &&& forall|i: int, j: int| 0 <= i < r.len() && 0 <= j < r.len() && (#[trigger] r[i]).1 == (#[trigger] r[j]).1 ==> i == j
}

pub proof fn lemma_tree_blob(tree: Seq<FileView>, path: Seq<char>)
    ensures
        tree_blob(tree, path) is Some <==> exists|i: int| 0 <= i < tree.len() && (#[trigger] tree[i]).path == path,
        one_file_per_path(tree) ==> forall|i: int|
            0 <= i < tree.len() && (#[trigger] tree[i]).path == path ==> tree_blob(tree, path) == Some(tree[i].blob),
    decreases tree.len(),
{
    if tree.len() > 0 {
        let d = tree.drop_last();
        lemma_tree_blob(d, path);
        if tree.last().path == path {
            assert(tree[tree.len() - 1].path == path);
        } else {
            if tree_blob(d, path) is Some {
                let i = choose|i: int| 0 <= i < d.len() && (#[trigger] d[i]).path == path;
                assert(tree[i].path == path);
            }
            if exists|i: int| 0 <= i < tree.len() && (#[trigger] tree[i]).path == path {
                let i = choose|i: int| 0 <= i < tree.len() && (#[trigger] tree[i]).path == path;
                assert(d[i].path == path);
            }
        }
        if one_file_per_path(tree) {
            assert forall|i: int| 0 <= i < tree.len() && (#[trigger] tree[i]).path == path implies tree_blob(tree, path)
                == Some(tree[i].blob) by {
                if i < d.len() {
                    assert(d[i].path == path);
                    assert(one_file_per_path(d)) by {
                        assert forall|x: int, y: int|
                            0 <= x < d.len() && 0 <= y < d.len() && (#[trigger] d[x]).path == (
                            #[trigger] d[y]).path implies x == y by {
                            assert(tree[x].path == tree[y].path);
                        }
                    }
                    assert(tree[i].path == path && tree[tree.len() - 1].path == tree.last().path);
                }
            }
        }
    }
}

/// The moves are renames, each a move, and as distinct as the renames.
proof fn lemma_moves(rows: Seq<RowView>, tree: Seq<FileView>, renames: Seq<(Seq<char>, Seq<char>)>)
    requires
        distinct_renames(renames),
    ensures
        distinct_renames(moves(rows, tree, renames)),
        forall|i: int|
            0 <= i < moves(rows, tree, renames).len() ==> is_move(rows, tree, #[trigger] moves(rows, tree, renames)[i]),
        forall|i: int|
            0 <= i < moves(rows, tree, renames).len() ==> exists|j: int|
                0 <= j < renames.len() && renames[j] == #[trigger] moves(rows, tree, renames)[i],
    decreases renames.len(),
{
    if renames.len() > 0 {
        let d = renames.drop_last();
        assert(distinct_renames(d)) by {
            assert forall|i: int, j: int|
                0 <= i < d.len() && 0 <= j < d.len() && (#[trigger] d[i]).0 == (#[trigger] d[j]).0 implies i == j by {
                assert(renames[i].0 == renames[j].0);
            }
            assert forall|i: int, j: int|
                0 <= i < d.len() && 0 <= j < d.len() && (#[trigger] d[i]).1 == (#[trigger] d[j]).1 implies i == j by {
                assert(renames[i].1 == renames[j].1);
            }
        }
        lemma_moves(rows, tree, d);
        let sub = moves(rows, tree, d);
        let all = moves(rows, tree, renames);
        let n = renames.len() - 1;
        assert forall|i: int| 0 <= i < sub.len() implies exists|j: int|
            0 <= j < n && renames[j] == #[trigger] sub[i] by {
            let j = choose|j: int| 0 <= j < d.len() && d[j] == sub[i];
            assert(renames[j] == sub[i]);
        }
        assert forall|i: int| 0 <= i < all.len() implies exists|j: int|
            0 <= j < renames.len() && renames[j] == #[trigger] all[i] by {
            if i < sub.len() {
                assert(all[i] == sub[i]);
                let j = choose|j: int| 0 <= j < n && renames[j] == sub[i];
                assert(renames[j] == all[i]);
            } else {
                assert(renames[n] == all[i]);
            }
        }
        if is_move(rows, tree, renames.last()) {
            assert forall|i: int| 0 <= i < sub.len() implies sub[i].0 != renames.last().0 && sub[i].1
                != renames.last().1 by {
                let j = choose|j: int| 0 <= j < n && renames[j] == sub[i];
                assert(renames[n] == renames.last());
                assert(renames[j].0 == renames[n].0 ==> j == n);
                assert(renames[j].1 == renames[n].1 ==> j == n);
            }
            assert forall|i: int, j: int|
                0 <= i < all.len() && 0 <= j < all.len() && (#[trigger] all[i]).0 == (#[trigger] all[j]).0 implies i
                == j by {
                if i < sub.len() && j < sub.len() {
                    assert(sub[i].0 == sub[j].0);
                } else if i < sub.len() {
                    assert(sub[i] == all[i]);
                } else if j < sub.len() {
                    assert(sub[j] == all[j]);
                }
            }
            assert forall|i: int, j: int|
                0 <= i < all.len() && 0 <= j < all.len() && (#[trigger] all[i]).1 == (#[trigger] all[j]).1 implies i
                == j by {
                if i < sub.len() && j < sub.len() {
                    assert(sub[i].1 == sub[j].1);
                } else if i < sub.len() {
                    assert(sub[i] == all[i]);
                } else if j < sub.len() {
                    assert(sub[j] == all[j]);
                }
            }
            assert forall|i: int| 0 <= i < all.len() implies is_move(rows, tree, #[trigger] all[i]) by {
                if i < sub.len() {
                    assert(all[i] == sub[i]);
                }
            }
        }
    }
}

/// What a path holds once the moves are made.
proof fn lemma_after_moves(m: Map<Seq<char>, Seq<char>>, moved: Seq<(Seq<char>, Seq<char>)>)
    requires
        distinct_renames(moved),
        forall|i: int| 0 <= i < moved.len() ==> m.contains_key((#[trigger] moved[i]).0) && !m.contains_key(moved[i].1),
    ensures
        forall|p: Seq<char>| #[trigger]
            after_moves(m, moved).contains_key(p) <==> moved_to(moved, p) || (m.contains_key(p) && !moved_from(moved, p)),
        forall|i: int| 0 <= i < moved.len() ==> after_moves(m, moved)[(#[trigger] moved[i]).1] == m[moved[i].0],
        forall|p: Seq<char>|
            m.contains_key(p) && !moved_from(moved, p) ==> #[trigger] after_moves(m, moved)[p] == m[p],
    decreases moved.len(),
{
    if moved.len() > 0 {
        let d = moved.drop_last();
        let n = moved.len() - 1;
        let (from, to) = moved.last();
        assert(moved[n] == (from, to));
        assert(distinct_renames(d)) by {
            assert forall|i: int, j: int|
                0 <= i < d.len() && 0 <= j < d.len() && (#[trigger] d[i]).0 == (#[trigger] d[j]).0 implies i == j by {
                assert(moved[i].0 == moved[j].0);
            }
            assert forall|i: int, j: int|
                0 <= i < d.len() && 0 <= j < d.len() && (#[trigger] d[i]).1 == (#[trigger] d[j]).1 implies i == j by {
                assert(moved[i].1 == moved[j].1);
            }
        }
        assert forall|i: int| 0 <= i < d.len() implies m.contains_key((#[trigger] d[i]).0) && !m.contains_key(d[i].1) by {
            assert(moved[i] == d[i]);
        }
        lemma_after_moves(m, d);
        let sofar = after_moves(m, d);
        assert(!moved_from(d, from)) by {
            if moved_from(d, from) {
                let i = choose|i: int| 0 <= i < d.len() && (#[trigger] d[i]).0 == from;
                assert(moved[i].0 == moved[n].0);
            }
        }
        assert(!moved_to(d, to)) by {
            if moved_to(d, to) {
                let i = choose|i: int| 0 <= i < d.len() && (#[trigger] d[i]).1 == to;
                assert(moved[i].1 == moved[n].1);
            }
        }
        assert(m.contains_key(from) && !m.contains_key(to));
        assert(sofar.contains_key(from));
        assert(sofar[from] == m[from]);
        let all = after_moves(m, moved);
        assert(all == sofar.remove(from).insert(to, m[from]));
        assert forall|p: Seq<char>| moved_from(moved, p) <==> moved_from(d, p) || p == from by {
            if moved_from(moved, p) {
                let i = choose|i: int| 0 <= i < moved.len() && (#[trigger] moved[i]).0 == p;
                assert(i < n ==> d[i].0 == p);
            }
            if moved_from(d, p) {
                let i = choose|i: int| 0 <= i < d.len() && (#[trigger] d[i]).0 == p;
                assert(moved[i].0 == p);
            }
        }
        assert forall|p: Seq<char>| moved_to(moved, p) <==> moved_to(d, p) || p == to by {
            if moved_to(moved, p) {
                let i = choose|i: int| 0 <= i < moved.len() && (#[trigger] moved[i]).1 == p;
                assert(i < n ==> d[i].1 == p);
            }
            if moved_to(d, p) {
                let i = choose|i: int| 0 <= i < d.len() && (#[trigger] d[i]).1 == p;
                assert(moved[i].1 == p);
            }
        }
        assert(!moved_to(d, from)) by {
            if moved_to(d, from) {
                let i = choose|i: int| 0 <= i < d.len() && (#[trigger] d[i]).1 == from;
                assert(!m.contains_key(d[i].1));
            }
        }
        assert forall|i: int| 0 <= i < moved.len() implies all[(#[trigger] moved[i]).1] == m[moved[i].0] by {
            if i < n {
                assert(d[i] == moved[i]);
                assert(moved_to(d, d[i].1));
                assert(d[i].1 != to);
                assert(d[i].1 != from);
            }
        }
    }
}

/// The files to chunk are the tree's new contents.
pub(crate) proof fn lemma_to_chunk(
    rows: Seq<RowView>,
    m: Seq<(Seq<char>, Seq<char>)>,
    tree: Seq<FileView>,
    prefix: Option<Seq<char>>,
)
    ensures
        forall|f: FileView| #[trigger]
            to_chunk(rows, m, tree, prefix).contains(f) <==> tree.contains(f) && is_new_content(rows, m, f) && in_prefix(
                prefix,
                f.path,
            ),
    decreases tree.len(),
{
    if tree.len() > 0 {
        let d = tree.drop_last();
        let sub = to_chunk(rows, m, d, prefix);
        let all = to_chunk(rows, m, tree, prefix);
        lemma_to_chunk(rows, m, d, prefix);
        assert forall|f: FileView| #[trigger] all.contains(f) <==> tree.contains(f) && is_new_content(rows, m, f)
            && in_prefix(prefix, f.path) by {
            assert(tree.contains(f) <==> d.contains(f) || f == tree.last()) by {
                if tree.contains(f) {
                    let i = choose|i: int| 0 <= i < tree.len() && tree[i] == f;
                    assert(i < d.len() ==> d[i] == f);
                }
                if d.contains(f) {
                    let i = choose|i: int| 0 <= i < d.len() && d[i] == f;
                    assert(tree[i] == f);
                }
                assert(tree[tree.len() - 1] == tree.last());
            }
            assert(sub.contains(f) <==> d.contains(f) && is_new_content(rows, m, f) && in_prefix(prefix, f.path));
            if all.contains(f) {
                let i = choose|i: int| 0 <= i < all.len() && all[i] == f;
                assert(i < sub.len() ==> sub[i] == f);
            }
            if sub.contains(f) {
                let i = choose|i: int| 0 <= i < sub.len() && sub[i] == f;
                assert(all[i] == f);
            }
            if all.len() > sub.len() {
                assert(all[sub.len() as int] == tree.last());
            }
        }
    }
}

/// The paths to delete are the rows' paths that neither stand in the tree nor
/// move.
pub(crate) proof fn lemma_to_delete(
    rows: Seq<RowView>,
    tree: Seq<FileView>,
    m: Seq<(Seq<char>, Seq<char>)>,
    prefix: Option<Seq<char>>,
)
    ensures
        forall|p: Seq<char>| #[trigger]
            listed(to_delete(rows, tree, m, prefix), p) <==> row_blob(rows, p) is Some && tree_blob(tree, p) is None
                && !moved_from(m, p) && in_prefix(prefix, p),
    decreases rows.len(),
{
    if rows.len() > 0 {
        let d = rows.drop_last();
        let sub = to_delete(d, tree, m, prefix);
        let all = to_delete(rows, tree, m, prefix);
        lemma_to_delete(d, tree, m, prefix);
        assert forall|p: Seq<char>| #[trigger] listed(all, p) <==> row_blob(rows, p) is Some && tree_blob(tree, p)
            is None && !moved_from(m, p) && in_prefix(prefix, p) by {
            assert(listed(sub, p) <==> row_blob(d, p) is Some && tree_blob(tree, p) is None && !moved_from(m, p)
                && in_prefix(prefix, p));
            if listed(all, p) {
                let i = choose|i: int| 0 <= i < all.len() && #[trigger] all[i] == p;
                assert(i < sub.len() ==> sub[i] == p);
            }
            if listed(sub, p) {
                let i = choose|i: int| 0 <= i < sub.len() && #[trigger] sub[i] == p;
                assert(all[i] == p);
            }
            if all.len() > sub.len() {
                assert(all[sub.len() as int] == rows.last().path);
            }
        }
    }
}

pub(crate) proof fn lemma_sorted_lists_the_same(s: Seq<Seq<char>>)
    ensures
        forall|p: Seq<char>| #[trigger] listed(sorted(s), p) <==> listed(s, p),
{
    let leq = |a: Seq<char>, b: Seq<char>| crate::order::not_after(a, b);
    crate::order::lemma_not_after_is_total_ordering();
    s.lemma_sort_by_ensures(leq);
    broadcast use vstd::seq_lib::group_to_multiset_ensures;

    assert forall|p: Seq<char>| #[trigger] listed(sorted(s), p) <==> listed(s, p) by {
        let t = sorted(s);
        assert(t.to_multiset().count(p) == s.to_multiset().count(p));
        if listed(t, p) {
            let i = choose|i: int| 0 <= i < t.len() && #[trigger] t[i] == p;
            assert(t.contains(p));
            assert(s.contains(p));
        }
        if listed(s, p) {
            let i = choose|i: int| 0 <= i < s.len() && #[trigger] s[i] == p;
            assert(s.contains(p));
            assert(t.contains(p));
        }
    }
}

proof fn lemma_moves_in_all(m: Seq<(Seq<char>, Seq<char>)>)
    ensures
        moves_in(m, None) == m,
    decreases m.len(),
{
    if m.len() > 0 {
        lemma_moves_in_all(m.drop_last());
        assert(m.drop_last().push(m.last()) =~= m);
    } else {
        assert(moves_in(m, None) =~= m);
    }
}

/// Whether some file of the list has the path.
spec fn has_path(files: Seq<FileView>, p: Seq<char>) -> bool {
    exists|i: int| 0 <= i < files.len() && (#[trigger] files[i]).path == p
}

proof fn lemma_after_adds(m: Map<Seq<char>, Seq<char>>, files: Seq<FileView>, tree: Seq<FileView>)
    requires
        forall|i: int| 0 <= i < files.len() ==> tree_blob(tree, (#[trigger] files[i]).path) == Some(files[i].blob),
    ensures
        forall|p: Seq<char>| #[trigger]
            after_adds(m, files).contains_key(p) <==> m.contains_key(p) || has_path(files, p),
        forall|p: Seq<char>|
            #![trigger after_adds(m, files)[p]]
            has_path(files, p) ==> Some(after_adds(m, files)[p]) == tree_blob(tree, p),
        forall|p: Seq<char>|
            #![trigger after_adds(m, files)[p]]
            !has_path(files, p) ==> after_adds(m, files)[p] == m[p],
    decreases files.len(),
{
    if files.len() > 0 {
        let d = files.drop_last();
        let n = files.len() - 1;
        assert forall|i: int| 0 <= i < d.len() implies tree_blob(tree, (#[trigger] d[i]).path) == Some(d[i].blob) by {
            assert(d[i] == files[i]);
        }
        lemma_after_adds(m, d, tree);
        assert(files[n] == files.last());
        assert forall|p: Seq<char>| #[trigger] has_path(files, p) <==> has_path(d, p) || p == files.last().path by {
            if has_path(files, p) {
                let i = choose|i: int| 0 <= i < files.len() && (#[trigger] files[i]).path == p;
                assert(i < n ==> d[i].path == p);
            }
            if has_path(d, p) {
                let i = choose|i: int| 0 <= i < d.len() && (#[trigger] d[i]).path == p;
                assert(files[i].path == p);
            }
        }
        let sofar = after_adds(m, d);
        let all = after_adds(m, files);
        let last = files.last().path;
        assert(all == sofar.insert(last, files.last().blob));
        assert(has_path(files, last)) by {
            assert(files[n].path == last);
        }
        assert(tree_blob(tree, last) == Some(files.last().blob));
        assert forall|p: Seq<char>| #[trigger] all.contains_key(p) <==> m.contains_key(p) || has_path(files, p) by {
            assert(sofar.contains_key(p) <==> m.contains_key(p) || has_path(d, p));
            assert(has_path(files, p) <==> has_path(d, p) || p == last);
        }
        assert forall|p: Seq<char>|
            #![trigger all[p]]
            (has_path(files, p) ==> Some(all[p]) == tree_blob(tree, p)) && (!has_path(files, p) ==> all[p] == m[p]) by {
            assert(has_path(files, p) <==> has_path(d, p) || p == last);
            assert(p != last ==> all[p] == sofar[p]);
        }
    }
}

/// Once the changes of a run without a prefix are made, the index holds the
/// tree's blob for each path of the tree and nothing else. The renames are
/// those of one diff: no path occurs twice on either side.
pub proof fn law_changes_mirror_the_tree(
    rows: Seq<RowView>,
    tree: Seq<FileView>,
    renames: Seq<(Seq<char>, Seq<char>)>,
)
    requires
        one_file_per_path(tree),
        distinct_renames(renames),
    ensures
        after_changes(blobs_of_rows(rows), changes_of(rows, tree, renames, None)) == blobs_of_tree(tree),
{
    let m = moves(rows, tree, renames);
    let c = changes_of(rows, tree, renames, None);
    let start = blobs_of_rows(rows);
    let gone = to_delete(rows, tree, m, None);
    lemma_moves(rows, tree, renames);
    lemma_moves_in_all(m);
    lemma_to_delete(rows, tree, m, None);
    lemma_sorted_lists_the_same(gone);
    lemma_to_chunk(rows, m, tree, None);
    let m1 = after_deletes(start, c.delete);
    assert forall|i: int| 0 <= i < m.len() implies m1.contains_key((#[trigger] m[i]).0) && !m1.contains_key(m[i].1) by {
        assert(is_move(rows, tree, m[i]));
        assert(moved_from(m, m[i].0));
        assert(!listed(gone, m[i].0));
        assert(!listed(c.delete, m[i].0));
    }
    lemma_after_moves(m1, m);
    let m2 = after_moves(m1, m);
    let adds = c.add_or_modify;
    assert forall|i: int| 0 <= i < adds.len() implies tree_blob(tree, (#[trigger] adds[i]).path) == Some(
        adds[i].blob,
    ) by {
        assert(adds.contains(adds[i]));
        assert(tree.contains(adds[i]));
        let k = choose|k: int| 0 <= k < tree.len() && tree[k] == adds[i];
        lemma_tree_blob(tree, adds[i].path);
        assert(tree[k].path == adds[i].path);
    }
    lemma_after_adds(m2, adds, tree);
    let end = after_changes(start, c);
    let goal = blobs_of_tree(tree);
    assert forall|p: Seq<char>| #[trigger] end.contains_key(p) == goal.contains_key(p) && (goal.contains_key(p)
        ==> end[p] == goal[p]) by {
        lemma_tree_blob(tree, p);
        let added = has_path(adds, p);
        assert(end.contains_key(p) <==> m2.contains_key(p) || added);
        assert(m2.contains_key(p) <==> moved_to(m, p) || (m1.contains_key(p) && !moved_from(m, p)));
        if tree_blob(tree, p) is Some {
            let k = choose|k: int| 0 <= k < tree.len() && (#[trigger] tree[k]).path == p;
            let f = tree[k];
            assert(tree_blob(tree, p) == Some(f.blob));
            assert(tree.contains(f));
            if is_new_content(rows, m, f) {
                assert(adds.contains(f));
                let i = choose|i: int| 0 <= i < adds.len() && adds[i] == f;
                assert(adds[i].path == p);
                assert(added);
                assert(Some(end[p]) == tree_blob(tree, p));
            } else if moved_to(m, p) {
                let i = choose|i: int| 0 <= i < m.len() && (#[trigger] m[i]).1 == p;
                assert(is_move(rows, tree, m[i]));
                assert(m2[p] == m1[m[i].0]);
                assert(!added) by {
                    if added {
                        let j = choose|j: int| 0 <= j < adds.len() && (#[trigger] adds[j]).path == p;
                        assert(adds.contains(adds[j]));
                        assert(!moved_to(m, adds[j].path));
                    }
                }
                assert(end[p] == m2[p]);
            } else {
                assert(row_blob(rows, p) == Some(f.blob));
                assert(!moved_from(m, p)) by {
                    if moved_from(m, p) {
                        let i = choose|i: int| 0 <= i < m.len() && (#[trigger] m[i]).0 == p;
                        assert(is_move(rows, tree, m[i]));
                    }
                }
                assert(!listed(gone, p));
                assert(!listed(c.delete, p));
                assert(m1.contains_key(p));
                assert(!added) by {
                    if added {
                        let j = choose|j: int| 0 <= j < adds.len() && (#[trigger] adds[j]).path == p;
                        assert(adds.contains(adds[j]));
                        assert(tree_blob(tree, adds[j].path) == Some(adds[j].blob));
                        assert(is_new_content(rows, m, adds[j]));
                    }
                }
                assert(end[p] == m2[p]);
            }
        } else {
            assert(!added) by {
                if added {
                    let j = choose|j: int| 0 <= j < adds.len() && (#[trigger] adds[j]).path == p;
                    assert(tree_blob(tree, adds[j].path) is Some);
                }
            }
            assert(!moved_to(m, p)) by {
                if moved_to(m, p) {
                    let i = choose|i: int| 0 <= i < m.len() && (#[trigger] m[i]).1 == p;
                    assert(is_move(rows, tree, m[i]));
                }
            }
            if start.contains_key(p) && !moved_from(m, p) {
                assert(listed(gone, p));
                assert(listed(c.delete, p));
            }
        }
    }
    assert(end =~= goal);
}

/// An index that mirrors the tree asks for nothing: a second run over the same
/// tree has no file to chunk, no row to delete and no row to move.
pub proof fn law_no_changes_once_mirrored(
    rows: Seq<RowView>,
    tree: Seq<FileView>,
    renames: Seq<(Seq<char>, Seq<char>)>,
    prefix: Option<Seq<char>>,
)
    requires
        one_file_per_path(tree),
        blobs_of_rows(rows) == blobs_of_tree(tree),
    ensures
        changes_of(rows, tree, renames, prefix).add_or_modify.len() == 0,
        changes_of(rows, tree, renames, prefix).delete.len() == 0,
        changes_of(rows, tree, renames, prefix).moved.len() == 0,
{
    assert forall|p: Seq<char>| #[trigger] row_blob(rows, p) == tree_blob(tree, p) by {
        assert(blobs_of_rows(rows).contains_key(p) == (row_blob(rows, p) is Some));
        assert(blobs_of_tree(tree).contains_key(p) == (tree_blob(tree, p) is Some));
        if row_blob(rows, p) is Some {
            assert(blobs_of_rows(rows)[p] == row_blob(rows, p)->0);
            assert(blobs_of_tree(tree)[p] == tree_blob(tree, p)->0);
        }
    }
    lemma_no_moves(rows, tree, renames);
    let m = moves(rows, tree, renames);
    lemma_to_chunk(rows, m, tree, prefix);
    let adds = to_chunk(rows, m, tree, prefix);
    if adds.len() > 0 {
        let f = adds[0];
        assert(adds.contains(f));
        let k = choose|k: int| 0 <= k < tree.len() && tree[k] == f;
        lemma_tree_blob(tree, f.path);
        assert(tree[k].path == f.path);
        assert(row_blob(rows, f.path) == tree_blob(tree, f.path));
    }
    lemma_to_delete(rows, tree, m, prefix);
    let gone = to_delete(rows, tree, m, prefix);
    lemma_sorted_lists_the_same(gone);
    let del = sorted(gone);
    if del.len() > 0 {
        assert(listed(del, del[0]));
        assert(row_blob(rows, del[0]) == tree_blob(tree, del[0]));
    }
    assert(moves_in(m, prefix).len() == 0);
}

proof fn lemma_no_moves(rows: Seq<RowView>, tree: Seq<FileView>, renames: Seq<(Seq<char>, Seq<char>)>)
    requires
        forall|p: Seq<char>| #[trigger] row_blob(rows, p) == tree_blob(tree, p),
    ensures
        moves(rows, tree, renames).len() == 0,
    decreases renames.len(),
{
    if renames.len() > 0 {
        lemma_no_moves(rows, tree, renames.drop_last());
        assert(row_blob(rows, renames.last().0) == tree_blob(tree, renames.last().0));
    }
}

// --- what is in scope ---

/// Whether a file of the tree belongs in the index: its category is indexed, and
/// it is neither ignored nor binary.
pub open spec fn belongs(scopes: Seq<ScopeView>, ignored: Seq<Seq<char>>, binary: Seq<Seq<char>>, f: FileView) -> bool {
    governing_category(scopes, f.path).is_indexed() && !listed(ignored, f.path) && !listed(binary, f.blob)
}

/// The files of a list that belong in the index.
pub open spec fn belonging(
    scopes: Seq<ScopeView>,
    ignored: Seq<Seq<char>>,
    binary: Seq<Seq<char>>,
    files: Seq<FileView>,
) -> Seq<FileView> {
    guarded(in_scope(scopes, files), ignored, binary)
}

/// The blobs of the paths whose category is indexed.
pub open spec fn after_cleanup(m: Map<Seq<char>, Seq<char>>, scopes: Seq<ScopeView>) -> Map<Seq<char>, Seq<char>> {
    Map::new(
        |p: Seq<char>| m.contains_key(p) && governing_category(scopes, p).is_indexed(),
        |p: Seq<char>| m[p],
    )
}

/// The blobs that the index holds once a run without a prefix has deleted,
/// moved, cleaned up and chunked.
pub open spec fn after_run(
    rows: Seq<RowView>,
    tree: Seq<FileView>,
    renames: Seq<(Seq<char>, Seq<char>)>,
    scopes: Seq<ScopeView>,
    ignored: Seq<Seq<char>>,
    binary: Seq<Seq<char>>,
) -> Map<Seq<char>, Seq<char>> {
    let c = changes_of(rows, tree, renames, None);
    after_adds(
        after_cleanup(after_moves(after_deletes(blobs_of_rows(rows), c.delete), c.moved), scopes),
        belonging(scopes, ignored, binary, c.add_or_modify),
    )
}

/// Whether the index mirrors what belongs in it: every file that belongs has its
/// blob, and every path stands in the tree and has an indexed category.
pub open spec fn mirrors(
    m: Map<Seq<char>, Seq<char>>,
    tree: Seq<FileView>,
    scopes: Seq<ScopeView>,
    ignored: Seq<Seq<char>>,
    binary: Seq<Seq<char>>,
) -> bool {
    &&& forall|i: int|
        0 <= i < tree.len() && belongs(scopes, ignored, binary, #[trigger] tree[i]) ==> m.contains_key(tree[i].path)
            && m[tree[i].path] == tree[i].blob
    &&& forall|p: Seq<char>| #[trigger]
        m.contains_key(p) ==> tree_blob(tree, p) is Some && governing_category(scopes, p).is_indexed()
}

proof fn lemma_in_scope(scopes: Seq<ScopeView>, files: Seq<FileView>)
    ensures
        forall|f: FileView| #[trigger]
            in_scope(scopes, files).contains(f) <==> files.contains(f) && governing_category(scopes, f.path).is_indexed(),
    decreases files.len(),
{
    let all = in_scope(scopes, files);
    if files.len() > 0 {
        let d = files.drop_last();
        let x = files.last();
        lemma_in_scope(scopes, d);
        assert(d.push(x) =~= files);
        assert forall|f: FileView| #[trigger] all.contains(f) <==> files.contains(f) && governing_category(
            scopes,
            f.path,
        ).is_indexed() by {
            lemma_push_contains(d, x, f);
            lemma_push_contains(in_scope(scopes, d), x, f);
        }
    } else {
        assert forall|f: FileView| !(#[trigger] all.contains(f)) by {
            assert(all.len() == 0);
        }
    }
}

proof fn lemma_push_contains(s: Seq<FileView>, x: FileView, f: FileView)
    ensures
        s.push(x).contains(f) <==> s.contains(f) || f == x,
{
    let t = s.push(x);
    if s.contains(f) {
        let i = choose|i: int| 0 <= i < s.len() && s[i] == f;
        assert(t[i] == f);
    }
    assert(t[s.len() as int] == x);
    if t.contains(f) {
        let i = choose|i: int| 0 <= i < t.len() && t[i] == f;
        if i < s.len() {
            assert(s[i] == f);
        }
    }
}

proof fn lemma_guarded(files: Seq<FileView>, ignored: Seq<Seq<char>>, binary: Seq<Seq<char>>)
    ensures
        forall|f: FileView| #[trigger]
            guarded(files, ignored, binary).contains(f) <==> files.contains(f) && !listed(ignored, f.path) && !listed(
                binary,
                f.blob,
            ),
    decreases files.len(),
{
    let all = guarded(files, ignored, binary);
    if files.len() > 0 {
        let d = files.drop_last();
        let x = files.last();
        lemma_guarded(d, ignored, binary);
        assert(d.push(x) =~= files);
        assert forall|f: FileView| #[trigger] all.contains(f) <==> files.contains(f) && !listed(ignored, f.path) && !listed(
            binary,
            f.blob,
        ) by {
            lemma_push_contains(d, x, f);
            lemma_push_contains(guarded(d, ignored, binary), x, f);
        }
    } else {
        assert forall|f: FileView| !(#[trigger] all.contains(f)) by {
            assert(all.len() == 0);
        }
    }
}

/// Once a run without a prefix has made its changes, the index mirrors what
/// belongs in it. The renames are those of one diff.
pub proof fn law_run_mirrors_what_belongs(
    rows: Seq<RowView>,
    tree: Seq<FileView>,
    renames: Seq<(Seq<char>, Seq<char>)>,
    scopes: Seq<ScopeView>,
    ignored: Seq<Seq<char>>,
    binary: Seq<Seq<char>>,
)
    requires
        one_file_per_path(tree),
        distinct_renames(renames),
    ensures
        mirrors(after_run(rows, tree, renames, scopes, ignored, binary), tree, scopes, ignored, binary),
{
    let m = moves(rows, tree, renames);
    let c = changes_of(rows, tree, renames, None);
    let start = blobs_of_rows(rows);
    let gone = to_delete(rows, tree, m, None);
    lemma_moves(rows, tree, renames);
    lemma_moves_in_all(m);
    lemma_to_delete(rows, tree, m, None);
    lemma_sorted_lists_the_same(gone);
    lemma_to_chunk(rows, m, tree, None);
    let m1 = after_deletes(start, c.delete);
    assert forall|i: int| 0 <= i < m.len() implies m1.contains_key((#[trigger] m[i]).0) && !m1.contains_key(m[i].1) by {
        assert(is_move(rows, tree, m[i]));
        assert(moved_from(m, m[i].0));
        assert(!listed(gone, m[i].0));
        assert(!listed(c.delete, m[i].0));
    }
    lemma_after_moves(m1, m);
    let m2 = after_moves(m1, m);
    let m3 = after_cleanup(m2, scopes);
    let changed = c.add_or_modify;
    let adds = belonging(scopes, ignored, binary, changed);
    lemma_in_scope(scopes, changed);
    lemma_guarded(in_scope(scopes, changed), ignored, binary);
    assert forall|i: int| 0 <= i < adds.len() implies tree_blob(tree, (#[trigger] adds[i]).path) == Some(
        adds[i].blob,
    ) && belongs(scopes, ignored, binary, adds[i]) by {
        assert(adds.contains(adds[i]));
        assert(in_scope(scopes, changed).contains(adds[i]));
        assert(changed.contains(adds[i]));
        assert(tree.contains(adds[i]));
        let k = choose|k: int| 0 <= k < tree.len() && tree[k] == adds[i];
        lemma_tree_blob(tree, adds[i].path);
        assert(tree[k].path == adds[i].path);
    }
    lemma_after_adds(m3, adds, tree);
    let end = after_adds(m3, adds);
    assert forall|p: Seq<char>| #[trigger] end.contains_key(p) implies tree_blob(tree, p) is Some && governing_category(
        scopes,
        p,
    ).is_indexed() by {
        if has_path(adds, p) {
            let j = choose|j: int| 0 <= j < adds.len() && (#[trigger] adds[j]).path == p;
            assert(belongs(scopes, ignored, binary, adds[j]));
        } else {
            assert(m3.contains_key(p));
            assert(m2.contains_key(p));
            if moved_to(m, p) {
                let i = choose|i: int| 0 <= i < m.len() && (#[trigger] m[i]).1 == p;
                assert(is_move(rows, tree, m[i]));
            } else {
                assert(m1.contains_key(p) && !moved_from(m, p));
                assert(!listed(gone, p));
            }
        }
    }
    assert forall|i: int| 0 <= i < tree.len() && belongs(scopes, ignored, binary, #[trigger] tree[i]) implies end.contains_key(
        tree[i].path,
    ) && end[tree[i].path] == tree[i].blob by {
        let f = tree[i];
        let p = f.path;
        lemma_tree_blob(tree, p);
        assert(tree_blob(tree, p) == Some(f.blob));
        assert(tree.contains(f));
        if is_new_content(rows, m, f) {
            assert(changed.contains(f));
            assert(in_scope(scopes, changed).contains(f));
            assert(adds.contains(f));
            let j = choose|j: int| 0 <= j < adds.len() && adds[j] == f;
            assert(adds[j].path == p);
            assert(has_path(adds, p));
            assert(Some(end[p]) == tree_blob(tree, p));
        } else {
            assert(!has_path(adds, p)) by {
                if has_path(adds, p) {
                    let j = choose|j: int| 0 <= j < adds.len() && (#[trigger] adds[j]).path == p;
                    assert(adds.contains(adds[j]));
                    assert(in_scope(scopes, changed).contains(adds[j]));
                    assert(changed.contains(adds[j]));
                    assert(tree_blob(tree, adds[j].path) == Some(adds[j].blob));
                    assert(is_new_content(rows, m, adds[j]));
                }
            }
            if moved_to(m, p) {
                let k = choose|k: int| 0 <= k < m.len() && (#[trigger] m[k]).1 == p;
                assert(is_move(rows, tree, m[k]));
                assert(m2.contains_key(p));
                assert(m2[p] == m1[m[k].0]);
            } else {
                assert(row_blob(rows, p) == Some(f.blob));
                assert(!moved_from(m, p)) by {
                    if moved_from(m, p) {
                        let k = choose|k: int| 0 <= k < m.len() && (#[trigger] m[k]).0 == p;
                        assert(is_move(rows, tree, m[k]));
                    }
                }
                assert(!listed(gone, p));
                assert(!listed(c.delete, p));
                assert(m1.contains_key(p));
                assert(m2.contains_key(p));
                assert(m2[p] == m1[p]);
            }
            assert(m3.contains_key(p));
            assert(end[p] == m3[p]);
        }
    }
}

/// An index that mirrors what belongs in it asks for nothing: a run over the
/// same tree has no file to chunk, no row to delete, no row to move and none to
/// clean up.
pub proof fn law_nothing_to_do_once_mirrored(
    rows: Seq<RowView>,
    tree: Seq<FileView>,
    scopes: Seq<ScopeView>,
    ignored: Seq<Seq<char>>,
    binary: Seq<Seq<char>>,
)
    requires
        one_file_per_path(tree),
        mirrors(blobs_of_rows(rows), tree, scopes, ignored, binary),
    ensures
        belonging(scopes, ignored, binary, changes_of(rows, tree, Seq::empty(), None).add_or_modify).len() == 0,
        changes_of(rows, tree, Seq::empty(), None).delete.len() == 0,
        changes_of(rows, tree, Seq::empty(), None).moved.len() == 0,
        out_of_scope(scopes, None, paths_of(rows)).len() == 0,
{
    let none: Seq<(Seq<char>, Seq<char>)> = Seq::empty();
    let m = moves(rows, tree, none);
    assert(m.len() == 0);
    let c = changes_of(rows, tree, none, None);
    let held = blobs_of_rows(rows);
    lemma_to_chunk(rows, m, tree, None);
    lemma_in_scope(scopes, c.add_or_modify);
    lemma_guarded(in_scope(scopes, c.add_or_modify), ignored, binary);
    let adds = belonging(scopes, ignored, binary, c.add_or_modify);
    if adds.len() > 0 {
        let f = adds[0];
        assert(adds.contains(f));
        assert(in_scope(scopes, c.add_or_modify).contains(f));
        assert(c.add_or_modify.contains(f));
        assert(tree.contains(f));
        let k = choose|k: int| 0 <= k < tree.len() && tree[k] == f;
        assert(belongs(scopes, ignored, binary, tree[k]));
        assert(held.contains_key(f.path) && held[f.path] == f.blob);
        assert(row_blob(rows, f.path) == Some(f.blob));
    }
    lemma_to_delete(rows, tree, m, None);
    let gone = to_delete(rows, tree, m, None);
    lemma_sorted_lists_the_same(gone);
    if c.delete.len() > 0 {
        assert(listed(c.delete, c.delete[0]));
        assert(held.contains_key(c.delete[0]));
    }
    assert forall|i: int| 0 <= i < rows.len() implies governing_category(scopes, (#[trigger] rows[i]).path).is_indexed() by {
        lemma_row_blob(rows, rows[i].path);
        assert(held.contains_key(rows[i].path));
    }
    lemma_none_out_of_scope(rows, scopes);
}

/// The paths of the rows, in order.
pub open spec fn paths_of(rows: Seq<RowView>) -> Seq<Seq<char>> {
    Seq::new(rows.len(), |i: int| rows[i].path)
}

proof fn lemma_none_out_of_scope(rows: Seq<RowView>, scopes: Seq<ScopeView>)
    requires
        forall|i: int| 0 <= i < rows.len() ==> governing_category(scopes, (#[trigger] rows[i]).path).is_indexed(),
    ensures
        out_of_scope(scopes, None, paths_of(rows)).len() == 0,
    decreases rows.len(),
{
    if rows.len() > 0 {
        let d = rows.drop_last();
        assert forall|i: int| 0 <= i < d.len() implies governing_category(scopes, (#[trigger] d[i]).path).is_indexed() by {
            assert(d[i] == rows[i]);
        }
        lemma_none_out_of_scope(d, scopes);
        assert(paths_of(rows).drop_last() =~= paths_of(d));
        assert(rows[rows.len() - 1] == rows.last());
    }
}

} // verus!
