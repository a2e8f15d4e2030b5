//! Scoping: which directories of a repository are product, tests or docs and
//! so enter the index, and which are vendored, generated or built.

use vstd::prelude::*;

use crate::code_index::rows::{
    files_view, lemma_files_push, opt_view, scopes_view, DirStat, FileView, ScopeRow,
    ScopeView, TrackedFile,
};
use crate::code_index::secrets;
use crate::error::KbError;
use crate::letters::{ascii_lower_all, has_prefix_letters, lower_all, starts_with_letters};
use crate::numeral::{dec, push_u64};
use crate::order::{sort_texts, sorted};
use crate::text::{
    char_position, chars_of, find, find_char, head, in_list, is_space, is_text, join, joined, joined_texts,
    lemma_texts_push, lines, lines_of, listed, position, push_all, push_text, same, same_text, split, split_char,
    starts_with, string_of, tail, texts, trim, trim_end_of, trimmed, trimmed_end_of, views,
};
use crate::textmap::TextMap;

verus! {

/// What a directory can be scoped to. `Product`, `Tests` and `Docs` are
/// indexed; `Vendored` gets one memory and no chunks; the rest are skipped.
#[derive(Debug, Clone, Copy, PartialEq, Eq, Structural)]
pub enum Category {
    Product,
    Tests,
    Docs,
    Vendored,
    Generated,
    Assets,
    BuildOutput,
}

/// The category that a token names: the token in small ASCII letters and
/// without the white space around it.
pub open spec fn parse_category(token: Seq<char>) -> Option<Category> {
    let t = ascii_lower_all(trim(token));
    if t == "product"@ {
        Some(Category::Product)
    } else if t == "tests"@ {
        Some(Category::Tests)
    } else if t == "docs"@ {
        Some(Category::Docs)
    } else if t == "vendored"@ {
        Some(Category::Vendored)
    } else if t == "generated"@ {
        Some(Category::Generated)
    } else if t == "assets"@ {
        Some(Category::Assets)
    } else if t == "build-output"@ || t == "build_output"@ || t == "buildoutput"@ {
        Some(Category::BuildOutput)
    } else {
        None
    }
}

impl Category {
    /// The token this category is stored and answered as.
    pub open spec fn token(self) -> Seq<char> {
        match self {
            Category::Product => "product"@,
            Category::Tests => "tests"@,
            Category::Docs => "docs"@,
            Category::Vendored => "vendored"@,
            Category::Generated => "generated"@,
            Category::Assets => "assets"@,
            Category::BuildOutput => "build-output"@,
        }
    }

    /// Whether files of this category enter the index.
    pub open spec fn is_indexed(self) -> bool {
        self == Category::Product || self == Category::Tests || self == Category::Docs
    }

    /// The token this category is stored and answered as.
    pub fn as_str(&self) -> (r: &'static str)
        ensures
            r@ == self.token(),
    {
        match self {
            Category::Product => "product",
            Category::Tests => "tests",
            Category::Docs => "docs",
            Category::Vendored => "vendored",
            Category::Generated => "generated",
            Category::Assets => "assets",
            Category::BuildOutput => "build-output",
        }
    }

    /// The category that a reply token names; `None` for anything else.
    pub fn parse(token: &str) -> (r: Option<Category>)
        ensures
            r == parse_category(token@),
    {
        let cs = chars_of(token);
        Category::parse_chars(cs.as_slice())
    }

    fn parse_chars(token: &[char]) -> (r: Option<Category>)
        ensures
            r == parse_category(token@),
    {
        let t = lower_all(trimmed(token));
        let s: &[char] = t.as_slice();
        if is_text(s, "product") {
            Some(Category::Product)
        } else if is_text(s, "tests") {
            Some(Category::Tests)
        } else if is_text(s, "docs") {
            Some(Category::Docs)
        } else if is_text(s, "vendored") {
            Some(Category::Vendored)
        } else if is_text(s, "generated") {
            Some(Category::Generated)
        } else if is_text(s, "assets") {
            Some(Category::Assets)
        } else if is_text(s, "build-output") || is_text(s, "build_output") || is_text(s, "buildoutput") {
            Some(Category::BuildOutput)
        } else {
            None
        }
    }

    /// Whether files of this category enter the index.
    pub fn indexed(&self) -> (r: bool)
        ensures
            r == self.is_indexed(),
    {
        matches!(self, Category::Product | Category::Tests | Category::Docs)
    }
}

/// A text that neither starts nor ends with white space is its own trim.
pub proof fn lemma_trim_noop(s: Seq<char>)
    requires
        s.len() > 0 ==> !is_space(s[0]) && !is_space(s.last()),
    ensures
        trim(s) == s,
{
}

/// Reading back a category's token gives that category.
pub proof fn law_category_token_reads_back(c: Category)
    ensures
        parse_category(c.token()) == Some(c),
{
    reveal_strlit("product");
    reveal_strlit("tests");
    reveal_strlit("docs");
    reveal_strlit("vendored");
    reveal_strlit("generated");
    reveal_strlit("assets");
    reveal_strlit("build-output");
    reveal_strlit("build_output");
    reveal_strlit("buildoutput");
    lemma_trim_noop(c.token());
    assert(ascii_lower_all(c.token()) =~= c.token());
}

// --- which directory decides ---

/// Whether `path` is `dir` or lies under it.
pub open spec fn owns(dir: Seq<char>, path: Seq<char>) -> bool {
    path == dir || starts_with(path, dir.push('/'))
}

/// Whether `path` is `dir` or lies under it.
pub fn dir_owns(dir: &[char], path: &[char]) -> (r: bool)
    ensures
        r == owns(dir@, path@),
{
    if same(path, dir) {
        return true;
    }
    if path.len() <= dir.len() {
        return false;
    }
    let front = head(path, dir.len());
    let r = same(front, dir) && path[dir.len()] == '/';
    proof {
        let n = dir@.len() as int;
        assert(path@.take(n + 1) =~= path@.take(n).push(path@[n]));
        assert(dir@.push('/').take(n) =~= dir@);
        if path@.take(n + 1) == dir@.push('/') {
            assert(path@.take(n + 1).take(n) =~= path@.take(n));
            assert(path@.take(n + 1)[n] == '/');
        }
    }
    r
}

/// Whether the `i`-th row decides `path`: it owns the path, its directory is
/// the longest that does, and it is the first of those.
pub open spec fn decides(rows: Seq<ScopeView>, path: Seq<char>, i: int) -> bool {
    &&& 0 <= i < rows.len()
    &&& owns(rows[i].dir, path)
    &&& forall|j: int|
        0 <= j < rows.len() && owns(#[trigger] rows[j].dir, path) ==> rows[j].dir.len() < rows[i].dir.len() || (
        rows[j].dir.len() == rows[i].dir.len() && i <= j)
}

/// The row that decides `path`, if any owns it.
pub open spec fn deciding_row(rows: Seq<ScopeView>, path: Seq<char>) -> Option<int> {
    if exists|i: int| decides(rows, path, i) {
        Some(choose|i: int| decides(rows, path, i))
    } else {
        None
    }
}

/// The category that governs `path`: that of the deciding row, and `Product`
/// where there is none or its category is not known.
pub open spec fn governing_category(rows: Seq<ScopeView>, path: Seq<char>) -> Category {
    match deciding_row(rows, path) {
        Some(i) => match parse_category(rows[i].category) {
            Some(c) => c,
            None => Category::Product,
        },
        None => Category::Product,
    }
}

/// Where some row owns the path, exactly one decides it.
pub proof fn law_one_row_decides(rows: Seq<ScopeView>, path: Seq<char>)
    ensures
        forall|i: int, j: int| decides(rows, path, i) && decides(rows, path, j) ==> i == j,
        (exists|i: int| 0 <= i < rows.len() && owns(#[trigger] rows[i].dir, path)) == (deciding_row(rows, path)
            is Some),
{
    assert forall|i: int, j: int| decides(rows, path, i) && decides(rows, path, j) implies i == j by {
        assert(owns(rows[i].dir, path));
        assert(owns(rows[j].dir, path));
    }
    if exists|i: int| 0 <= i < rows.len() && owns(#[trigger] rows[i].dir, path) {
        let n = rows.len() as int;
        lemma_some_row_decides(rows, path, n);
        let i = choose|i: int| decides_upto(rows, path, i, n);
        assert(decides(rows, path, i));
    }
    if deciding_row(rows, path) is Some {
        let i = choose|i: int| decides(rows, path, i);
        assert(owns(rows[i].dir, path));
    }
}

/// Among the first `n` rows, the longest owner comes first.
spec fn decides_upto(rows: Seq<ScopeView>, path: Seq<char>, i: int, n: int) -> bool {
    &&& 0 <= i < n
    &&& owns(rows[i].dir, path)
    &&& forall|j: int|
        0 <= j < n && owns(#[trigger] rows[j].dir, path) ==> rows[j].dir.len() < rows[i].dir.len() || (
        rows[j].dir.len() == rows[i].dir.len() && i <= j)
}

proof fn lemma_some_row_decides(rows: Seq<ScopeView>, path: Seq<char>, n: int)
    requires
        0 <= n <= rows.len(),
    ensures
        (exists|i: int| decides_upto(rows, path, i, n)) || (forall|i: int|
            0 <= i < n ==> !owns(#[trigger] rows[i].dir, path)),
        n == rows.len() ==> forall|i: int| decides_upto(rows, path, i, n) ==> decides(rows, path, i),
    decreases n,
{
    if n > 0 {
        let m = n - 1;
        lemma_some_row_decides(rows, path, m);
        let last = rows[m].dir;
        if exists|i: int| decides_upto(rows, path, i, m) {
            let i = choose|i: int| decides_upto(rows, path, i, m);
            if owns(last, path) && last.len() > rows[i].dir.len() {
                assert(decides_upto(rows, path, n - 1, n));
            } else {
                assert(decides_upto(rows, path, i, n));
            }
        } else if owns(last, path) {
            assert(decides_upto(rows, path, n - 1, n));
        }
    }
}

/// The index of the row that decides `path`.
fn deciding_index(scope_rows: &[ScopeRow], path: &str) -> (r: Option<usize>)
    ensures
        r is Some == deciding_row(scopes_view(scope_rows@), path@) is Some,
        r is Some ==> r->0 == deciding_row(scopes_view(scope_rows@), path@)->0,
        r is Some ==> r->0 < scope_rows@.len(),
{
    let pc = chars_of(path);
    let ghost rows = scopes_view(scope_rows@);
    let mut best: Option<usize> = None;
    let mut best_len: usize = 0;
    let mut i: usize = 0;
    while i < scope_rows.len()
        invariant
            i <= scope_rows@.len(),
            pc@ == path@,
            rows == scopes_view(scope_rows@),
            best is Some ==> decides_upto(rows, path@, best->0 as int, i as int),
            best is Some ==> best_len == rows[best->0 as int].dir.len(),
            best is None ==> forall|j: int| 0 <= j < i ==> !owns(#[trigger] rows[j].dir, path@),
        decreases scope_rows@.len() - i,
    {
        let dc = chars_of(scope_rows[i].dir.as_str());
        assert(rows[i as int].dir == dc@);
        if dir_owns(dc.as_slice(), pc.as_slice()) {
            if best.is_none() || dc.len() > best_len {
                best = Some(i);
                best_len = dc.len();
            }
        }
        i = i + 1;
    }
    proof {
        law_one_row_decides(rows, path@);
        if best is Some {
            assert(decides(rows, path@, best->0 as int));
        }
    }
    best
}

/// The category governing `path`.
pub fn category_for(scope_rows: &[ScopeRow], path: &str) -> (r: Category)
    ensures
        r == governing_category(scopes_view(scope_rows@), path@),
{
    match deciding_index(scope_rows, path) {
        Some(i) => match Category::parse(scope_rows[i].category.as_str()) {
            Some(c) => c,
            None => Category::Product,
        },
        None => Category::Product,
    }
}

/// The directory of the row that decides `path`, if any.
pub open spec fn owning(rows: Seq<ScopeView>, path: Seq<char>) -> Option<Seq<char>> {
    match deciding_row(rows, path) {
        Some(i) => Some(rows[i].dir),
        None => None,
    }
}

/// The directory whose scoping decision governs `path`.
pub fn owning_dir(scope_rows: &[ScopeRow], path: &str) -> (r: Option<String>)
    ensures
        opt_view(r) == owning(scopes_view(scope_rows@), path@),
{
    match deciding_index(scope_rows, path) {
        Some(i) => Some(scope_rows[i].dir.clone()),
        None => None,
    }
}

// --- the guard before anything is read ---

/// The files that are neither ignored by git nor binary.
pub open spec fn guarded(files: Seq<FileView>, ignored: Seq<Seq<char>>, binary: Seq<Seq<char>>) -> Seq<FileView>
    decreases files.len(),
{
    if files.len() == 0 {
        Seq::empty()
    } else {
        let rest = guarded(files.drop_last(), ignored, binary);
        let f = files.last();
        if listed(ignored, f.path) || listed(binary, f.blob) {
            rest
        } else {
            rest.push(f)
        }
    }
}

/// Removes the ignored paths and the binary blobs from a list of files, so
/// that neither is ever chunked or sent anywhere.
pub fn guard_files(tree: &Vec<TrackedFile>, ignored: &Vec<String>, binary: &Vec<String>) -> (r: Vec<TrackedFile>)
    ensures
        files_view(r@) == guarded(files_view(tree@), texts(ignored@), texts(binary@)),
{
    let ghost all = files_view(tree@);
    let mut kept: Vec<TrackedFile> = Vec::new();
    let mut i: usize = 0;
    assert(files_view(kept@) =~= guarded(all.take(0), texts(ignored@), texts(binary@)));
    while i < tree.len()
        invariant
            i <= tree@.len(),
            all == files_view(tree@),
            files_view(kept@) == guarded(all.take(i as int), texts(ignored@), texts(binary@)),
        decreases tree@.len() - i,
    {
        assert(all.take(i + 1).drop_last() =~= all.take(i as int));
        if !in_list(ignored, tree[i].path.as_str()) && !in_list(binary, tree[i].blob.as_str()) {
            let f = tree[i].copied();
            proof {
                lemma_files_push(kept@, f);
            }
            kept.push(f);
        }
        i = i + 1;
    }
    assert(all.take(i as int) =~= all);
    kept
}

// --- when to scope again ---

/// The first component of a path.
pub open spec fn first_component(path: Seq<char>) -> Seq<char> {
    split(path, '/')[0]
}

/// Whether some row lies in the top-level directory.
pub open spec fn covered(rows: Seq<ScopeView>, top: Seq<char>) -> bool {
    exists|j: int| 0 <= j < rows.len() && first_component((#[trigger] rows[j]).dir) == top
}

/// Whether a scope pass is due: nothing was decided yet, or some top-level
/// directory is covered by no row.
pub open spec fn scope_due(rows: Seq<ScopeView>, top_dirs: Seq<Seq<char>>) -> bool {
    rows.len() == 0 || exists|i: int| 0 <= i < top_dirs.len() && !covered(rows, #[trigger] top_dirs[i])
}

fn is_covered(rows: &Vec<ScopeRow>, top: &str) -> (r: bool)
    ensures
        r == covered(scopes_view(rows@), top@),
{
    let tc = chars_of(top);
    let ghost rv = scopes_view(rows@);
    let mut j: usize = 0;
    while j < rows.len()
        invariant
            j <= rows@.len(),
            tc@ == top@,
            rv == scopes_view(rows@),
            forall|k: int| 0 <= k < j ==> first_component((#[trigger] rv[k]).dir) != top@,
        decreases rows@.len() - j,
    {
        let dc = chars_of(rows[j].dir.as_str());
        let comps = split_char(dc.as_slice(), '/');
        proof {
            secrets::lemma_split_nonempty(dc@, '/');
            assert(views(comps@).len() == comps@.len());
            assert(rv[j as int].dir == dc@);
            assert(views(comps@)[0] == comps@[0]@);
        }
        if same(comps[0], tc.as_slice()) {
            return true;
        }
        j = j + 1;
    }
    false
}

/// True when the scope pass should run for a project: no decision exists yet,
/// or a top-level directory appeared that no decision covers. One that merely
/// disappeared needs none.
pub fn needs_scope(rows: &Vec<ScopeRow>, top_dirs: &Vec<String>) -> (r: bool)
    ensures
        r == scope_due(scopes_view(rows@), texts(top_dirs@)),
{
    if rows.len() == 0 {
        return true;
    }
    let ghost tv = texts(top_dirs@);
    let mut i: usize = 0;
    while i < top_dirs.len()
        invariant
            i <= top_dirs@.len(),
            tv == texts(top_dirs@),
            forall|k: int| 0 <= k < i ==> covered(scopes_view(rows@), #[trigger] tv[k]),
        decreases top_dirs@.len() - i,
    {
        if !is_covered(rows, top_dirs[i].as_str()) {
            assert(!covered(scopes_view(rows@), tv[i as int]));
            return true;
        }
        i = i + 1;
    }
    false
}

/// Whether some tracked file lies under the directory.
pub open spec fn has_files_under(files: Seq<FileView>, dir: Seq<char>) -> bool {
    exists|i: int| 0 <= i < files.len() && starts_with((#[trigger] files[i]).path, dir.push('/'))
}

/// Whether `dir` is an ancestor of some tracked file.
pub fn is_tracked_dir(tree: &[TrackedFile], dir: &str) -> (r: bool)
    ensures
        r == has_files_under(files_view(tree@), dir@),
{
    let mut slashed = chars_of(dir);
    slashed.push('/');
    let ghost fv = files_view(tree@);
    let mut i: usize = 0;
    while i < tree.len()
        invariant
            i <= tree@.len(),
            slashed@ == dir@.push('/'),
            fv == files_view(tree@),
            forall|k: int| 0 <= k < i ==> !starts_with((#[trigger] fv[k]).path, dir@.push('/')),
        decreases tree@.len() - i,
    {
        let pc = chars_of(tree[i].path.as_str());
        assert(fv[i as int].path == pc@);
        if slashed.len() <= pc.len() && same(head(pc.as_slice(), slashed.len()), slashed.as_slice()) {
            return true;
        }
        i = i + 1;
    }
    false
}

/// Whether a decision is dropped: made by the model, for a directory that no
/// tracked file lies under any more. A user's decision stands.
pub open spec fn is_stale_scope(row: ScopeView, files: Seq<FileView>) -> bool {
    row.source == "llm"@ && !has_files_under(files, row.dir)
}

/// The directories whose decisions are dropped, in the rows' order.
pub open spec fn stale_scopes(rows: Seq<ScopeView>, files: Seq<FileView>) -> Seq<Seq<char>>
    decreases rows.len(),
{
    if rows.len() == 0 {
        Seq::empty()
    } else {
        let rest = stale_scopes(rows.drop_last(), files);
        if is_stale_scope(rows.last(), files) {
            rest.push(rows.last().dir)
        } else {
            rest
        }
    }
}

/// The directories whose model-made decisions are to be deleted, because the
/// committed tree has no file under them.
pub fn prune_stale_scope_rows(rows: &Vec<ScopeRow>, tree: &[TrackedFile]) -> (r: Vec<String>)
    ensures
        texts(r@) == stale_scopes(scopes_view(rows@), files_view(tree@)),
{
    let ghost rv = scopes_view(rows@);
    let ghost fv = files_view(tree@);
    let mut out: Vec<String> = Vec::new();
    let mut i: usize = 0;
    assert(texts(out@) =~= stale_scopes(rv.take(0), fv));
    while i < rows.len()
        invariant
            i <= rows@.len(),
            rv == scopes_view(rows@),
            fv == files_view(tree@),
            texts(out@) == stale_scopes(rv.take(i as int), fv),
        decreases rows@.len() - i,
    {
        assert(rv.take(i + 1).drop_last() =~= rv.take(i as int));
        if same_text(rows[i].source.as_str(), "llm") && !is_tracked_dir(tree, rows[i].dir.as_str()) {
            let d = rows[i].dir.clone();
            proof {
                lemma_texts_push(out@, d);
            }
            out.push(d);
        }
        i = i + 1;
    }
    assert(rv.take(i as int) =~= rv);
    out
}

// --- a user's own decision ---

/// The directory that a user's words name.
pub open spec fn named_dir(dir: Seq<char>) -> Seq<char> {
    trim_end_of(trim(dir), '/', '/')
}

/// Checks one directory and category that a user gives against the committed
/// tree, and normalises them. An unknown category is reported first.
pub fn validate_user_scope_set(tree: &[TrackedFile], dir: &str, category: &str) -> (r: Result<
    (String, Category),
    KbError,
>)
    ensures
        r is Err ==> r->Err_0 is Other,
        r is Ok <==> parse_category(category@) is Some && named_dir(dir@).len() > 0 && has_files_under(
            files_view(tree@),
            named_dir(dir@),
        ),
        r is Ok ==> r->Ok_0.0@ == named_dir(dir@) && Some(r->Ok_0.1) == parse_category(category@),
        parse_category(category@) is None ==> r is Err && r->Err_0@ == "unknown category '"@ + category@
            + "' (expected one of: product, tests, docs, vendored, generated, assets, build-output)"@,
        parse_category(category@) is Some && r is Err ==> r->Err_0@ == "'"@ + named_dir(dir@)
            + "' is not a directory with tracked files at HEAD"@,
{
    let dc = chars_of(dir);
    let named = trimmed_end_of(trimmed(dc.as_slice()), '/', '/');
    let cat = match Category::parse(category) {
        Some(c) => c,
        None => {
            let mut m = chars_of("unknown category '");
            push_text(&mut m, category);
            push_text(&mut m, "' (expected one of: product, tests, docs, vendored, generated, assets, build-output)");
            return Err(KbError::Other(string_of(m.as_slice())));
        },
    };
    let name = string_of(named);
    if named.len() == 0 || !is_tracked_dir(tree, name.as_str()) {
        let mut m = chars_of("'");
        push_all(&mut m, named);
        push_text(&mut m, "' is not a directory with tracked files at HEAD");
        return Err(KbError::Other(string_of(m.as_slice())));
    }
    Ok((name, cat))
}

// --- the reply grammar ---

/// A decision that a reply line states: a directory, its category and what it
/// vendors.
pub type Verdict = (Category, Option<String>);

/// What a verdict says.
pub open spec fn verdict_view(v: Verdict) -> (Category, Option<Seq<char>>) {
    (v.0, opt_view(v.1))
}

/// What the verdicts of a map say.
pub open spec fn verdicts_view(m: Map<Seq<char>, Verdict>) -> Map<Seq<char>, (Category, Option<Seq<char>>)> {
    Map::new(|k: Seq<char>| m.contains_key(k), |k: Seq<char>| verdict_view(m[k]))
}

/// What stands behind the colon: a category token and, behind a dash between
/// spaces, a description.
pub open spec fn verdict_of(rest: Seq<char>) -> Option<(Category, Option<Seq<char>>)> {
    let e = find(rest, " \u{2014} "@);
    let token = if e >= 0 {
        trim(rest.take(e))
    } else {
        rest
    };
    let what = if e >= 0 {
        trim(rest.skip(e + 3))
    } else {
        Seq::empty()
    };
    match parse_category(token) {
        Some(c) => Some((c, if what.len() == 0 {
            None
        } else {
            Some(what)
        })),
        None => None,
    }
}

/// The directory and the verdict of one reply line; `None` where the line has
/// no colon, no directory or no known category.
pub open spec fn scope_line(raw: Seq<char>) -> Option<(Seq<char>, (Category, Option<Seq<char>>))> {
    let line = trim(raw);
    let k = find_char(line, ':');
    if k < line.len() && trim(line.take(k)).len() > 0 {
        match verdict_of(trim(line.skip(k + 1))) {
            Some(v) => Some((trim(line.take(k)), v)),
            None => None,
        }
    } else {
        None
    }
}

/// The verdicts of a reply's lines; a later line for a directory replaces an
/// earlier one.
pub open spec fn scope_lines(ls: Seq<Seq<char>>) -> Map<Seq<char>, (Category, Option<Seq<char>>)>
    decreases ls.len(),
{
    if ls.len() == 0 {
        Map::empty()
    } else {
        let rest = scope_lines(ls.drop_last());
        match scope_line(ls.last()) {
            Some((d, v)) => rest.insert(d, v),
            None => rest,
        }
    }
}

fn read_verdict(rest: &[char]) -> (r: Option<Verdict>)
    ensures
        r is Some == verdict_of(rest@) is Some,
        r is Some ==> verdict_view(r->0) == verdict_of(rest@)->0,
{
    let mut what: Option<String> = None;
    let mut token: &[char] = rest;
    proof {
        reveal_strlit(" \u{2014} ");
    }
    if let Some(e) = position(rest, " \u{2014} ") {
        token = trimmed(head(rest, e));
        let end: usize = rest.len();
        assert(e + 3 <= end);
        let w = trimmed(tail(rest, e + 3));
        if w.len() > 0 {
            what = Some(string_of(w));
        }
    }
    match Category::parse_chars(token) {
        Some(c) => Some((c, what)),
        None => None,
    }
}

fn read_scope_line(raw: &[char]) -> (r: Option<(String, Verdict)>)
    ensures
        r is Some == scope_line(raw@) is Some,
        r is Some ==> (r->0).0@ == (scope_line(raw@)->0).0 && verdict_view((r->0).1) == (scope_line(raw@)->0).1,
{
    let line = trimmed(raw);
    let k: usize = char_position(line, ':');
    if k == line.len() {
        return None;
    }
    let dir = trimmed(head(line, k));
    if dir.len() == 0 {
        return None;
    }
    match read_verdict(trimmed(tail(line, k + 1))) {
        Some(v) => Some((string_of(dir), v)),
        None => None,
    }
}

/// Reads a scope reply into a verdict for each directory it resolves. A line
/// that states none is passed over.
pub fn parse_scope_reply(reply: &str) -> (r: TextMap<Verdict>)
    ensures
        r.wf(),
        verdicts_view(r@) == scope_lines(lines(reply@)),
{
    let rc = chars_of(reply);
    let ls = lines_of(rc.as_slice());
    let ghost lv = views(ls@);
    let mut out: TextMap<Verdict> = TextMap::new();
    let mut i: usize = 0;
    assert(verdicts_view(out@) =~= scope_lines(lv.take(0)));
    while i < ls.len()
        invariant
            i <= ls@.len(),
            lv == views(ls@),
            out.wf(),
            verdicts_view(out@) == scope_lines(lv.take(i as int)),
        decreases ls@.len() - i,
    {
        assert(lv.take(i + 1).drop_last() =~= lv.take(i as int));
        let ghost before = out@;
        if let Some((d, v)) = read_scope_line(ls[i]) {
            out.insert(d, v);
            assert(verdicts_view(out@) =~= verdicts_view(before).insert(d@, verdict_view(v)));
        }
        i = i + 1;
    }
    assert(lv.take(i as int) =~= lv);
    out
}

// --- the prompt ---

/// The files of a repository that say what it is: by their base name, in any
/// case.
pub open spec fn is_notice(path: Seq<char>) -> bool {
    let base = secrets::base_name(path);
    starts_with_letters(base, "LICENSE"@) || starts_with_letters(base, "LICENCE"@) || starts_with_letters(
        base,
        "README"@,
    )
}

/// Whether the base name of `path` starts with LICENSE, LICENCE or README.
pub fn is_license_or_readme(path: &str) -> (r: bool)
    ensures
        r == is_notice(path@),
{
    let pc = chars_of(path);
    let comps = split_char(pc.as_slice(), '/');
    proof {
        secrets::lemma_split_nonempty(pc@, '/');
        assert(views(comps@).len() == comps@.len());
    }
    let base: &[char] = comps[comps.len() - 1];
    assert(base@ == secrets::base_name(path@));
    has_prefix_letters(base, "LICENSE") || has_prefix_letters(base, "LICENCE") || has_prefix_letters(base, "README")
}

/// The notices among the paths, in the paths' order.
pub open spec fn notices(paths: Seq<Seq<char>>) -> Seq<Seq<char>>
    decreases paths.len(),
{
    if paths.len() == 0 {
        Seq::empty()
    } else if is_notice(paths.last()) {
        notices(paths.drop_last()).push(paths.last())
    } else {
        notices(paths.drop_last())
    }
}

/// The license and readme files among the paths, sorted.
pub fn readme_license_paths(paths: &Vec<String>) -> (r: Vec<String>)
    ensures
        texts(r@) == sorted(notices(texts(paths@))),
{
    let ghost pv = texts(paths@);
    let mut out: Vec<String> = Vec::new();
    let mut i: usize = 0;
    assert(texts(out@) =~= notices(pv.take(0)));
    while i < paths.len()
        invariant
            i <= paths@.len(),
            pv == texts(paths@),
            texts(out@) == notices(pv.take(i as int)),
        decreases paths@.len() - i,
    {
        assert(pv.take(i + 1).drop_last() =~= pv.take(i as int));
        if is_license_or_readme(paths[i].as_str()) {
            let p = paths[i].clone();
            proof {
                lemma_texts_push(out@, p);
            }
            out.push(p);
        }
        i = i + 1;
    }
    assert(pv.take(i as int) =~= pv);
    sort_texts(&out)
}

/// How many lines of a notice the model gets to see.
pub const EXCERPT_LINES: usize = 40;

/// The first lines of a text.
pub open spec fn excerpt(content: Seq<char>) -> Seq<char> {
    let ls = lines(content);
    join(
        if ls.len() > EXCERPT_LINES {
            ls.take(EXCERPT_LINES as int)
        } else {
            ls
        },
        "\n"@,
    )
}

/// What a pair of texts holds.
pub open spec fn pair_view(p: (String, String)) -> (Seq<char>, Seq<char>) {
    (p.0@, p.1@)
}

/// What each pair of texts of a list holds.
pub open spec fn pairs_view(v: Seq<(String, String)>) -> Seq<(Seq<char>, Seq<char>)> {
    Seq::new(v.len(), |i: int| pair_view(v[i]))
}

/// The excerpts of the files that are not flagged as holding a secret, neither
/// by path nor by content.
pub open spec fn excerpts(files: Seq<(Seq<char>, Seq<char>)>) -> Seq<(Seq<char>, Seq<char>)>
    decreases files.len(),
{
    if files.len() == 0 {
        Seq::empty()
    } else {
        let rest = excerpts(files.drop_last());
        let (path, content) = files.last();
        if secrets::secret_label(path, content) is Some {
            rest
        } else {
            rest.push((path, excerpt(content)))
        }
    }
}

fn excerpt_of(content: &str) -> (r: String)
    ensures
        r@ == excerpt(content@),
{
    let cc = chars_of(content);
    let mut ls = lines_of(cc.as_slice());
    let ghost all = views(ls@);
    if ls.len() > EXCERPT_LINES {
        ls.truncate(EXCERPT_LINES);
        assert(views(ls@) =~= all.take(EXCERPT_LINES as int));
    }
    let j = joined(&ls, "\n");
    string_of(j.as_slice())
}

/// The path and the first 40 lines of each file, given with its content, that
/// carries no secret: a secret is never sent to the model.
pub fn collect_readme_license_excerpts(files: &Vec<(String, String)>) -> (r: Vec<(String, String)>)
    ensures
        pairs_view(r@) == excerpts(pairs_view(files@)),
{
    let ghost fv = pairs_view(files@);
    let mut out: Vec<(String, String)> = Vec::new();
    let mut i: usize = 0;
    assert(pairs_view(out@) =~= excerpts(fv.take(0)));
    while i < files.len()
        invariant
            i <= files@.len(),
            fv == pairs_view(files@),
            pairs_view(out@) == excerpts(fv.take(i as int)),
        decreases files@.len() - i,
    {
        assert(fv.take(i + 1).drop_last() =~= fv.take(i as int));
        let path: &str = files[i].0.as_str();
        let content: &str = files[i].1.as_str();
        if secrets::reason(path, content).is_none() {
            let ghost done = out@;
            let e = (files[i].0.clone(), excerpt_of(content));
            out.push(e);
            assert(pairs_view(out@) =~= pairs_view(done).push(pair_view(e)));
        }
        i = i + 1;
    }
    assert(fv.take(i as int) =~= fv);
    out
}

/// How the scope prompt begins.
pub const SCOPE_PROMPT_HEAD: &'static str = "You are scoping a code repository so a personal code index knows what to index. For each directory listed below, classify it into exactly one category:\n- product: application/library source code\n- tests: test code\n- docs: documentation\n- vendored: third-party code checked into the repo\n- generated: generated/derived code (codegen output, lockfiles, protobuf stubs)\n- assets: binary or media/data assets, not source\n- build-output: build artifacts, caches, compiled output\n\nDirectories (path -- files, lines, commits, authors, first added):\n";

/// How the scope prompt ends.
pub const SCOPE_PROMPT_TAIL: &'static str = "\nReply with exactly one line per directory, nothing else, in this exact format:\n<dir>: <category>\nFor a vendored directory only, you may append a short description of what it vendors:\n<dir>: vendored \u{2014} <what>\n";

/// The prompt's line for one directory.
pub open spec fn stat_line(s: DirStat) -> Seq<char> {
    s.dir@ + ": files="@ + dec(s.files as int) + " lines="@ + dec(s.lines as int) + " commits="@ + dec(s.commits as int)
        + " authors="@ + join(texts(s.authors@), ","@) + " first_added="@ + s.first_added@ + "\n"@
}

/// The prompt's lines for the directories.
pub open spec fn stat_lines(stats: Seq<DirStat>) -> Seq<char>
    decreases stats.len(),
{
    if stats.len() == 0 {
        Seq::empty()
    } else {
        stat_lines(stats.drop_last()) + stat_line(stats.last())
    }
}

/// The prompt's blocks for the excerpts.
pub open spec fn doc_blocks(docs: Seq<(Seq<char>, Seq<char>)>) -> Seq<char>
    decreases docs.len(),
{
    if docs.len() == 0 {
        Seq::empty()
    } else {
        doc_blocks(docs.drop_last()) + "\n--- "@ + docs.last().0 + " ---\n"@ + docs.last().1 + "\n"@
    }
}

/// The one prompt of a repository's scope pass.
pub open spec fn scope_prompt(stats: Seq<DirStat>, docs: Seq<(Seq<char>, Seq<char>)>) -> Seq<char> {
    SCOPE_PROMPT_HEAD@ + stat_lines(stats) + (if docs.len() == 0 {
        Seq::empty()
    } else {
        "\nLICENSE/README excerpts (first 40 lines each):\n"@ + doc_blocks(docs)
    }) + SCOPE_PROMPT_TAIL@
}

/// Builds the scope prompt: the categories, one line of evidence per directory,
/// and the excerpts.
pub fn build_scope_prompt(stats: &Vec<DirStat>, docs: &Vec<(String, String)>) -> (r: String)
    ensures
        r@ == scope_prompt(stats@, pairs_view(docs@)),
{
    let mut s = chars_of(SCOPE_PROMPT_HEAD);
    let mut i: usize = 0;
    assert(s@ =~= SCOPE_PROMPT_HEAD@ + stat_lines(stats@.take(0)));
    while i < stats.len()
        invariant
            i <= stats@.len(),
            s@ == SCOPE_PROMPT_HEAD@ + stat_lines(stats@.take(i as int)),
        decreases stats@.len() - i,
    {
        let ghost before = s@;
        assert(stats@.take(i + 1).drop_last() =~= stats@.take(i as int));
        let st: &DirStat = &stats[i];
        push_text(&mut s, st.dir.as_str());
        push_text(&mut s, ": files=");
        push_u64(&mut s, st.files);
        push_text(&mut s, " lines=");
        push_u64(&mut s, st.lines);
        push_text(&mut s, " commits=");
        push_u64(&mut s, st.commits);
        push_text(&mut s, " authors=");
        let authors = joined_texts(&st.authors, ",");
        push_all(&mut s, authors.as_slice());
        push_text(&mut s, " first_added=");
        push_text(&mut s, st.first_added.as_str());
        push_text(&mut s, "\n");
        assert(s@ =~= before + stat_line(*st));
        i = i + 1;
        assert(s@ =~= SCOPE_PROMPT_HEAD@ + stat_lines(stats@.take(i as int)));
    }
    assert(stats@.take(i as int) =~= stats@);
    let ghost upto = s@;
    let ghost dv = pairs_view(docs@);
    if docs.len() > 0 {
        push_text(&mut s, "\nLICENSE/README excerpts (first 40 lines each):\n");
        let ghost title = "\nLICENSE/README excerpts (first 40 lines each):\n"@;
        let mut j: usize = 0;
        assert(s@ =~= upto + (title + doc_blocks(dv.take(0))));
        while j < docs.len()
            invariant
                j <= docs@.len(),
                dv == pairs_view(docs@),
                s@ == upto + (title + doc_blocks(dv.take(j as int))),
            decreases docs@.len() - j,
        {
            assert(dv.take(j + 1).drop_last() =~= dv.take(j as int));
            push_text(&mut s, "\n--- ");
            push_text(&mut s, docs[j].0.as_str());
            push_text(&mut s, " ---\n");
            push_text(&mut s, docs[j].1.as_str());
            push_text(&mut s, "\n");
            j = j + 1;
            assert(s@ =~= upto + (title + doc_blocks(dv.take(j as int))));
        }
        assert(dv.take(j as int) =~= dv);
    } else {
        assert(s@ =~= upto + Seq::<char>::empty());
    }
    push_text(&mut s, SCOPE_PROMPT_TAIL);
    string_of(s.as_slice())
}

// --- what a reply comes to ---

/// How the sources of the memories that the index owns begin.
pub const INDEX_OWNED_SOURCE_PREFIX: &'static str = "code-index:";

/// The memory that a vendored directory earns.
#[derive(Debug, Clone, PartialEq, Eq)]
pub struct VendoredMemory {
    pub source: String,
    pub content: String,
}

/// What a vendored directory's memory is found by.
pub open spec fn vendored_source(project: Seq<char>, dir: Seq<char>) -> Seq<char> {
    INDEX_OWNED_SOURCE_PREFIX@ + project + ":vendored:"@ + dir
}

/// What a vendored directory's memory says.
pub open spec fn vendored_content(project: Seq<char>, dir: Seq<char>, what: Option<Seq<char>>) -> Seq<char> {
    project + " vendors "@ + (match what {
        Some(w) => w,
        None => "third-party code"@,
    }) + " under "@ + dir
}

/// The memory that a vendored directory earns. It is written once: not where a
/// memory with its source already exists.
pub fn write_vendored_memory(project: &str, dir: &str, what: Option<&str>) -> (r: VendoredMemory)
    ensures
        r.source@ == vendored_source(project@, dir@),
        r.content@ == vendored_content(project@, dir@, crate::code_index::rows::opt_str_view(what)),
{
    let mut source = chars_of(INDEX_OWNED_SOURCE_PREFIX);
    push_text(&mut source, project);
    push_text(&mut source, ":vendored:");
    push_text(&mut source, dir);
    let mut content = chars_of(project);
    push_text(&mut content, " vendors ");
    match what {
        Some(w) => push_text(&mut content, w),
        None => push_text(&mut content, "third-party code"),
    }
    push_text(&mut content, " under ");
    push_text(&mut content, dir);
    VendoredMemory { source: string_of(source.as_slice()), content: string_of(content.as_slice()) }
}

/// What a scope pass comes to: whether its call failed, the decision for each
/// directory, and the memories of the vendored ones.
#[derive(Debug, Clone)]
pub struct ScopePass {
    pub failed: bool,
    pub rows: Vec<(String, Category)>,
    pub memories: Vec<VendoredMemory>,
}

/// The verdict on a directory: what the reply says, else `Product`.
pub open spec fn verdict_on(verdicts: Map<Seq<char>, (Category, Option<Seq<char>>)>, dir: Seq<char>) -> (
    Category,
    Option<Seq<char>>,
) {
    if verdicts.contains_key(dir) {
        verdicts[dir]
    } else {
        (Category::Product, None)
    }
}

/// The last row for a directory.
pub open spec fn row_for(rows: Seq<ScopeView>, dir: Seq<char>) -> Option<ScopeView>
    decreases rows.len(),
{
    if rows.len() == 0 {
        None
    } else if rows.last().dir == dir {
        Some(rows.last())
    } else {
        row_for(rows.drop_last(), dir)
    }
}

/// The category in effect once the verdict is stored: a user's own decision
/// is never undone by it.
pub open spec fn effective(existing: Seq<ScopeView>, dir: Seq<char>, verdict: Category) -> Category {
    match row_for(existing, dir) {
        Some(row) => if row.source == "user"@ {
            match parse_category(row.category) {
                Some(c) => c,
                None => Category::Product,
            }
        } else {
            verdict
        },
        None => verdict,
    }
}

/// The memories that a scope pass earns, as source and content.
pub open spec fn pass_memories(
    dirs: Seq<Seq<char>>,
    verdicts: Map<Seq<char>, (Category, Option<Seq<char>>)>,
    existing: Seq<ScopeView>,
    project: Seq<char>,
) -> Seq<(Seq<char>, Seq<char>)>
    decreases dirs.len(),
{
    if dirs.len() == 0 {
        Seq::empty()
    } else {
        let rest = pass_memories(dirs.drop_last(), verdicts, existing, project);
        let (category, what) = verdict_on(verdicts, dirs.last());
        if effective(existing, dirs.last(), category) == Category::Vendored {
            rest.push((vendored_source(project, dirs.last()), vendored_content(project, dirs.last(), what)))
        } else {
            rest
        }
    }
}

pub open spec fn stat_dirs(stats: Seq<DirStat>) -> Seq<Seq<char>> {
    Seq::new(stats.len(), |i: int| stats[i].dir@)
}

pub open spec fn memories_view(v: Seq<VendoredMemory>) -> Seq<(Seq<char>, Seq<char>)> {
    Seq::new(v.len(), |i: int| (v[i].source@, v[i].content@))
}

/// The category in effect in a directory once the verdict on it is stored.
pub fn effective_category(existing: &Vec<ScopeRow>, dir: &str, verdict: Category) -> (r: Category)
    ensures
        r == effective(scopes_view(existing@), dir@, verdict),
{
    let ghost ev = scopes_view(existing@);
    let mut n: usize = existing.len();
    assert(ev.take(n as int) =~= ev);
    while n > 0
        invariant
            n <= existing@.len(),
            ev == scopes_view(existing@),
            row_for(ev.take(n as int), dir@) == row_for(ev, dir@),
        decreases n,
    {
        let row: &ScopeRow = &existing[n - 1];
        assert(ev.take(n as int).last() == ev[n - 1]);
        assert(ev.take(n as int).drop_last() =~= ev.take(n - 1));
        if same_text(row.dir.as_str(), dir) {
            if same_text(row.source.as_str(), "user") {
                return match Category::parse(row.category.as_str()) {
                    Some(c) => c,
                    None => Category::Product,
                };
            }
            return verdict;
        }
        n = n - 1;
    }
    verdict
}

/// What the scope pass writes for the directories, given the model's reply, or
/// none where the call failed: one decision for each, the reply's or `Product`,
/// and one memory for each directory that is in effect vendored. A call that
/// failed leaves everything to the next run.
pub fn run_scope_pass(stats: &Vec<DirStat>, reply: Option<&str>, existing: &Vec<ScopeRow>, project: &str) -> (r: ScopePass)
    ensures
        r.failed <==> reply is None,
        reply is None ==> r.rows@.len() == 0 && r.memories@.len() == 0,
        reply is Some ==> r.rows@.len() == stats@.len(),
        reply is Some ==> forall|i: int|
            0 <= i < stats@.len() ==> (#[trigger] r.rows@[i]).0@ == stats@[i].dir@ && r.rows@[i].1 == verdict_on(
                scope_lines(lines(reply->0@)),
                stats@[i].dir@,
            ).0,
        reply is Some ==> memories_view(r.memories@) == pass_memories(
            stat_dirs(stats@),
            scope_lines(lines(reply->0@)),
            scopes_view(existing@),
            project@,
        ),
{
    let reply = match reply {
        Some(text) => text,
        None => {
            return ScopePass { failed: true, rows: Vec::new(), memories: Vec::new() };
        },
    };
    let parsed = parse_scope_reply(reply);
    let ghost verdicts = scope_lines(lines(reply@));
    let ghost dirs = stat_dirs(stats@);
    let ghost ev = scopes_view(existing@);
    let mut rows: Vec<(String, Category)> = Vec::new();
    let mut memories: Vec<VendoredMemory> = Vec::new();
    let mut i: usize = 0;
    assert(memories_view(memories@) =~= pass_memories(dirs.take(0), verdicts, ev, project@));
    while i < stats.len()
        invariant
            i <= stats@.len(),
            parsed.wf(),
            verdicts_view(parsed@) == verdicts,
            dirs == stat_dirs(stats@),
            ev == scopes_view(existing@),
            rows@.len() == i,
            forall|k: int|
                0 <= k < i ==> (#[trigger] rows@[k]).0@ == stats@[k].dir@ && rows@[k].1 == verdict_on(
                    verdicts,
                    stats@[k].dir@,
                ).0,
            memories_view(memories@) == pass_memories(dirs.take(i as int), verdicts, ev, project@),
        decreases stats@.len() - i,
    {
        assert(dirs.take(i + 1).drop_last() =~= dirs.take(i as int));
        let dir: &str = stats[i].dir.as_str();
        let ghost d = stats@[i as int].dir@;
        assert(dirs.take(i + 1).last() == d);
        assert(verdicts.contains_key(d) == parsed@.contains_key(d));
        let found: Option<&Verdict> = parsed.get(dir);
        let category: Category = match found {
            Some(v) => v.0,
            None => Category::Product,
        };
        assert(category == verdict_on(verdicts, d).0);
        if effective_category(existing, dir, category) == Category::Vendored {
            let what: Option<&str> = match found {
                Some(v) => match &v.1 {
                    Some(w) => Some(w.as_str()),
                    None => None,
                },
                None => None,
            };
            assert(crate::code_index::rows::opt_str_view(what) == verdict_on(verdicts, d).1);
            let m = write_vendored_memory(project, dir, what);
            let ghost done = memories@;
            memories.push(m);
            assert(memories_view(memories@) =~= memories_view(done).push((m.source@, m.content@)));
        }
        rows.push((stats[i].dir.clone(), category));
        i = i + 1;
    }
    assert(dirs.take(i as int) =~= dirs);
    ScopePass { failed: false, rows, memories }
}

/// A decision of the user's own stands whatever the model says.
pub proof fn law_user_decision_stands(existing: Seq<ScopeView>, dir: Seq<char>, a: Category, b: Category)
    requires
        row_for(existing, dir) is Some,
        row_for(existing, dir)->0.source == "user"@,
    ensures
        effective(existing, dir, a) == effective(existing, dir, b),
        parse_category(row_for(existing, dir)->0.category) is Some ==> Some(effective(existing, dir, a)) == parse_category(
            row_for(existing, dir)->0.category,
        ),
{
}

} // verus!
