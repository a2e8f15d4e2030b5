//! Projects: what identifies one, how far its index lags behind, and the card
//! that describes it.

use serde_json::Value;
use vstd::prelude::*;

use crate::code_index::rows::{opt_str_view, opt_view};
use crate::json::{content, json_member, member, parse_json, parsed, Json};
use crate::letters::{all_ascii, ascii_lower_all, lowercase_of, to_lower};
use crate::numeral::{parse_i64, read_i64};
use crate::order::{sort_texts, sorted};
use crate::path::{file_name, path_file_name};
use crate::text::{
    chars_of, has_prefix, in_list, is_text, join, joined_texts, lemma_texts_push, lines, lines_of, listed, owned,
    push_text, starts_with, string_of, tail, texts, trim, trim_of, trim_start_of, trimmed, trimmed_of, trimmed_start_of,
    views,
};
use crate::width::{chars_that_fit, fit, lemma_fit_is_longest, width};

verus! {

/// So many commits since it was indexed make a project's map stale.
pub const PROJECT_DRIFT_COMMITS: i64 = 30;

/// How many bytes a card may have.
pub const CARD_MAX_CHARS: usize = 520;

// --- identity ---

/// What a project is identified by.
#[derive(Debug, Clone, PartialEq, Eq)]
pub enum Fingerprint {
    /// The first commit of its repository, which survives renames and moves.
    GitRoot(String),
    /// Its path, where there is no repository rooted at it.
    Path(String),
}

impl Fingerprint {
    /// The stored form.
    pub open spec fn stored(self) -> Seq<char> {
        match self {
            Fingerprint::GitRoot(h) => "git:"@ + h@,
            Fingerprint::Path(p) => "path:"@ + p@,
        }
    }

    /// The stored form.
    pub fn key(&self) -> (r: String)
        ensures
            r@ == self.stored(),
    {
        let mut s: Vec<char>;
        match self {
            Fingerprint::GitRoot(h) => {
                s = chars_of("git:");
                push_text(&mut s, h.as_str());
            },
            Fingerprint::Path(p) => {
                s = chars_of("path:");
                push_text(&mut s, p.as_str());
            },
        }
        string_of(s.as_slice())
    }
}

/// A commit and a path never share a stored form.
pub proof fn law_fingerprints_of_both_kinds_differ(a: Fingerprint, b: Fingerprint)
    requires
        a is GitRoot,
        b is Path,
    ensures
        a.stored() != b.stored(),
{
    reveal_strlit("git:");
    reveal_strlit("path:");
    assert(a.stored()[0] == 'g');
    assert(b.stored()[0] == 'p');
}

/// The name of a project: the last component of its path, in lower case.
pub open spec fn project_name(root: Seq<char>) -> Seq<char> {
    match file_name(root) {
        Some(n) => lowercase_of(n),
        None => Seq::empty(),
    }
}

/// The name of the project at a directory. Of a name in ASCII only the capitals
/// change, so that letter case alone never makes two projects.
pub fn normalize_name(root: &str) -> (r: String)
    ensures
        r@ == project_name(root@),
        file_name(root@) is Some && all_ascii(file_name(root@)->0) ==> r@ == ascii_lower_all(file_name(root@)->0),
{
    match path_file_name(root) {
        Some(n) => to_lower(n.as_str()),
        None => String::new(),
    }
}

/// What a command printed, trimmed; `None` where it failed or printed nothing.
pub open spec fn printed(success: bool, stdout: Seq<char>) -> Option<Seq<char>> {
    if success && trim(stdout).len() > 0 {
        Some(trim(stdout))
    } else {
        None
    }
}

/// What a git command printed.
pub fn git_output(success: bool, stdout: &str) -> (r: Option<String>)
    ensures
        opt_view(r) == printed(success, stdout@),
{
    let sc = chars_of(stdout);
    let t = trimmed(sc.as_slice());
    if success && t.len() > 0 {
        Some(string_of(t))
    } else {
        None
    }
}

/// The first line of what was printed, where it is not empty.
pub open spec fn first_commit(out: Option<Seq<char>>) -> Option<Seq<char>> {
    match out {
        Some(o) => if lines(o).len() > 0 && lines(o)[0].len() > 0 {
            Some(lines(o)[0])
        } else {
            None
        },
        None => None,
    }
}

/// Identifies the project at a directory, given what git prints as the root
/// commits there and whether the repository is rooted at that very directory:
/// a directory inside a repository is not that repository.
pub fn fingerprint_for(root: &str, root_commits: Option<&str>, is_git_root: bool) -> (r: Fingerprint)
    ensures
        r is GitRoot <==> first_commit(opt_str_view(root_commits)) is Some && is_git_root,
        r matches Fingerprint::GitRoot(h) ==> Some(h@) == first_commit(opt_str_view(root_commits)),
        r matches Fingerprint::Path(p) ==> p@ == root@,
{
    if let Some(out) = root_commits {
        let oc = chars_of(out);
        let ls = lines_of(oc.as_slice());
        assert(views(ls@).len() == ls@.len());
        if ls.len() > 0 {
            assert(views(ls@)[0] == ls@[0]@);
            if ls[0].len() > 0 && is_git_root {
                return Fingerprint::GitRoot(string_of(ls[0]));
            }
        }
    }
    Fingerprint::Path(owned(root))
}

/// The number of commits that git printed.
pub fn commit_count(out: Option<&str>) -> (r: Option<i64>)
    ensures
        r == match opt_str_view(out) {
            Some(o) => read_i64(o),
            None => None,
        },
{
    match out {
        Some(o) => {
            let oc = chars_of(o);
            parse_i64(oc.as_slice())
        },
        None => None,
    }
}

// --- drift ---

/// How far a project's map lags behind its code.
#[derive(Debug, Clone, Copy, PartialEq, Eq, Structural)]
pub enum DriftState {
    /// No map was ever made, or when is not known.
    NeverIndexed,
    /// Within both thresholds.
    Fresh,
    /// Past one of them, with so many commits since.
    Drifted { commits: i64 },
}

/// The commits since a project was indexed: none where either count is not
/// known, or where history was rewritten to fewer.
pub open spec fn commits_since(indexed: Option<i64>, current: Option<i64>) -> int {
    match (indexed, current) {
        (Some(then_), Some(now)) => if now > then_ {
            now - then_
        } else {
            0
        },
        _ => 0,
    }
}

/// How far a map lags behind, given whether its time is known and whether it
/// is past the threshold in days.
pub open spec fn drift(indexed_at_known: bool, commits: int, days_over: bool) -> DriftState {
    if !indexed_at_known {
        DriftState::NeverIndexed
    } else if commits >= PROJECT_DRIFT_COMMITS || days_over {
        DriftState::Drifted { commits: commits as i64 }
    } else {
        DriftState::Fresh
    }
}

/// How far a map lags behind: by commits or by days, whichever trips. A time
/// that cannot be read counts as none.
pub fn drift_state(
    indexed_commits: Option<i64>,
    current_commits: Option<i64>,
    indexed_at_known: bool,
    days_over: bool,
) -> (r: DriftState)
    requires
        commits_since(indexed_commits, current_commits) <= i64::MAX,
    ensures
        r == drift(indexed_at_known, commits_since(indexed_commits, current_commits), days_over),
{
    if !indexed_at_known {
        return DriftState::NeverIndexed;
    }
    let commits: i64 = match (indexed_commits, current_commits) {
        (Some(before), Some(now)) => if now > before {
            now - before
        } else {
            0
        },
        _ => 0,
    };
    if commits >= PROJECT_DRIFT_COMMITS || days_over {
        DriftState::Drifted { commits }
    } else {
        DriftState::Fresh
    }
}

// --- the card ---

/// What was found at a project's root.
#[derive(Debug, Clone)]
pub struct CardFacts {
    /// The root itself.
    pub root: String,
    /// The remote and the branch that git reports.
    pub remote: Option<String>,
    pub branch: Option<String>,
    /// What identifies the project.
    pub fingerprint: Fingerprint,
    /// The names of the directories in the root.
    pub dirs: Vec<String>,
    /// Those of the manifests and entry points that are files.
    pub files: Vec<String>,
    /// The manifests that could be read.
    pub cargo_toml: Option<String>,
    pub package_json: Option<String>,
    pub go_mod: Option<String>,
}

/// Whether a directory is left out of the layout.
pub open spec fn is_hidden(name: Seq<char>) -> bool {
    starts_with(name, "."@) || name == "target"@ || name == "node_modules"@
}

/// The directories of the layout.
pub open spec fn shown_dirs(names: Seq<Seq<char>>) -> Seq<Seq<char>>
    decreases names.len(),
{
    if names.len() == 0 {
        Seq::empty()
    } else if is_hidden(names.last()) {
        shown_dirs(names.drop_last())
    } else {
        shown_dirs(names.drop_last()).push(names.last())
    }
}

fn layout_dirs(names: &Vec<String>) -> (r: Vec<String>)
    ensures
        texts(r@) == sorted(shown_dirs(texts(names@))),
{
    let ghost nv = texts(names@);
    let mut out: Vec<String> = Vec::new();
    let mut i: usize = 0;
    assert(texts(out@) =~= shown_dirs(nv.take(0)));
    while i < names.len()
        invariant
            i <= names@.len(),
            nv == texts(names@),
            texts(out@) == shown_dirs(nv.take(i as int)),
        decreases names@.len() - i,
    {
        assert(nv.take(i + 1).drop_last() =~= nv.take(i as int));
        let nc = chars_of(names[i].as_str());
        if !has_prefix(nc.as_slice(), ".") && !is_text(nc.as_slice(), "target") && !is_text(
            nc.as_slice(),
            "node_modules",
        ) {
            let n = names[i].clone();
            proof {
                lemma_texts_push(out@, n);
            }
            out.push(n);
        }
        i = i + 1;
    }
    assert(nv.take(i as int) =~= nv);
    sort_texts(&out)
}

/// The manifests that a card names, in order.
pub open spec fn manifests() -> Seq<Seq<char>> {
    seq!["Cargo.toml"@, "package.json"@, "pyproject.toml"@, "go.mod"@, "Makefile"@, "CMakeLists.txt"@]
}

/// The entry points that a card names, in order.
pub open spec fn entry_points() -> Seq<Seq<char>> {
    seq!["src/main.rs"@, "src/lib.rs"@, "main.go"@, "src/index.ts"@, "src/index.tsx"@, "__main__.py"@]
}

/// The manifests that a card names, in order.
pub fn manifest_names() -> (r: Vec<String>)
    ensures
        texts(r@) == manifests(),
{
    let r = vec![
        owned("Cargo.toml"),
        owned("package.json"),
        owned("pyproject.toml"),
        owned("go.mod"),
        owned("Makefile"),
        owned("CMakeLists.txt"),
    ];
    assert(texts(r@) =~= manifests());
    r
}

/// The entry points that a card names, in order.
pub fn entry_point_names() -> (r: Vec<String>)
    ensures
        texts(r@) == entry_points(),
{
    let r = vec![
        owned("src/main.rs"),
        owned("src/lib.rs"),
        owned("main.go"),
        owned("src/index.ts"),
        owned("src/index.tsx"),
        owned("__main__.py"),
    ];
    assert(texts(r@) =~= entry_points());
    r
}

/// The names that are among the files.
pub open spec fn present(names: Seq<Seq<char>>, files: Seq<Seq<char>>) -> Seq<Seq<char>>
    decreases names.len(),
{
    if names.len() == 0 {
        Seq::empty()
    } else if listed(files, names.last()) {
        present(names.drop_last(), files).push(names.last())
    } else {
        present(names.drop_last(), files)
    }
}

fn present_of(names: &Vec<String>, files: &Vec<String>) -> (r: Vec<String>)
    ensures
        texts(r@) == present(texts(names@), texts(files@)),
{
    let ghost nv = texts(names@);
    let ghost fv = texts(files@);
    let mut out: Vec<String> = Vec::new();
    let mut i: usize = 0;
    assert(texts(out@) =~= present(nv.take(0), fv));
    while i < names.len()
        invariant
            i <= names@.len(),
            nv == texts(names@),
            fv == texts(files@),
            texts(out@) == present(nv.take(i as int), fv),
        decreases names@.len() - i,
    {
        assert(nv.take(i + 1).drop_last() =~= nv.take(i as int));
        if in_list(files, names[i].as_str()) {
            let n = names[i].clone();
            proof {
                lemma_texts_push(out@, n);
            }
            out.push(n);
        }
        i = i + 1;
    }
    assert(nv.take(i as int) =~= nv);
    out
}

/// What stands behind the first occurrence of a prefix at the start of a line.
pub open spec fn behind_prefix(ls: Seq<Seq<char>>, prefix: Seq<char>) -> Option<Seq<char>>
    decreases ls.len(),
{
    if ls.len() == 0 {
        None
    } else if starts_with(ls[0], prefix) {
        Some(ls[0].skip(prefix.len() as int))
    } else {
        behind_prefix(ls.drop_first(), prefix)
    }
}

fn find_behind(text: &str, prefix: &str) -> (r: Option<Vec<char>>)
    ensures
        r is Some == behind_prefix(lines(text@), prefix@) is Some,
        r is Some ==> (r->0)@ == behind_prefix(lines(text@), prefix@)->0,
{
    let tc = chars_of(text);
    let ls = lines_of(tc.as_slice());
    let ghost lv = views(ls@);
    let pc = chars_of(prefix);
    let mut i: usize = 0;
    assert(lv.skip(0) =~= lv);
    while i < ls.len()
        invariant
            i <= ls@.len(),
            lv == views(ls@),
            pc@ == prefix@,
            behind_prefix(lv.skip(i as int), prefix@) == behind_prefix(lv, prefix@),
            lv == lines(text@),
        decreases ls@.len() - i,
    {
        assert(lv.skip(i as int)[0] == ls@[i as int]@);
        assert(lv.skip(i as int).drop_first() =~= lv.skip(i + 1));
        if has_prefix(ls[i], prefix) {
            return Some(crate::text::copy_of(tail(ls[i], pc.len())));
        }
        i = i + 1;
    }
    None
}

/// The package name that a parsed manifest gives.
pub open spec fn json_name(j: Json) -> Option<Seq<char>> {
    match member(j, "name"@) {
        Some(Json::Text(s)) => Some(s),
        _ => None,
    }
}

/// The package name: that of the first manifest that gives one, where a
/// `package.json` that can be read decides whatever it holds.
pub open spec fn package_name(
    cargo_toml: Option<Seq<char>>,
    package_json: Option<Seq<char>>,
    go_mod: Option<Seq<char>>,
) -> Option<Seq<char>> {
    let cargo = match cargo_toml {
        Some(t) => behind_prefix(lines(t), "name"@),
        None => None,
    };
    if cargo is Some {
        Some(trim_of(trim(trim_start_of(cargo->0, ' ', '=')), '"', '"'))
    } else if package_json is Some {
        match parsed(package_json->0) {
            Ok(j) => json_name(j),
            Err(_) => None,
        }
    } else if go_mod is Some {
        match behind_prefix(lines(go_mod->0), "module "@) {
            Some(m) => Some(trim(m)),
            None => None,
        }
    } else {
        None
    }
}

/// The package name that a parsed `package.json` gives.
pub fn name_in_package(value: &Value) -> (r: Option<String>)
    ensures
        opt_view(r) == json_name(content(*value)),
{
    match json_member(value, "name") {
        Some(v) => match v.as_str() {
            Some(s) => Some(owned(s)),
            None => None,
        },
        None => None,
    }
}

/// The package name from whichever manifest is there.
pub fn manifest_name(cargo_toml: Option<&str>, package_json: Option<&str>, go_mod: Option<&str>) -> (r: Option<String>)
    ensures
        opt_view(r) == package_name(opt_str_view(cargo_toml), opt_str_view(package_json), opt_str_view(go_mod)),
{
    if let Some(t) = cargo_toml {
        if let Some(v) = find_behind(t, "name") {
            let stripped = trimmed_of(trimmed(trimmed_start_of(v.as_slice(), ' ', '=')), '"', '"');
            return Some(string_of(stripped));
        }
    }
    if let Some(t) = package_json {
        return match parse_json(t) {
            Ok(v) => name_in_package(&v),
            Err(_) => None,
        };
    }
    if let Some(t) = go_mod {
        return match find_behind(t, "module ") {
            Some(m) => Some(string_of(trimmed(m.as_slice()))),
            None => None,
        };
    }
    None
}

/// The test command that the manifests suggest.
pub open spec fn suggested_tests(files: Seq<Seq<char>>) -> Option<Seq<char>> {
    if listed(files, "Cargo.toml"@) {
        Some("cargo test --workspace"@)
    } else if listed(files, "package.json"@) {
        Some("npm test"@)
    } else if listed(files, "pyproject.toml"@) {
        Some("pytest"@)
    } else if listed(files, "go.mod"@) {
        Some("go test ./..."@)
    } else {
        None
    }
}

/// The test command that the manifests suggest.
pub fn test_command(files: &Vec<String>) -> (r: Option<&'static str>)
    ensures
        match r {
            Some(c) => Some(c@) == suggested_tests(texts(files@)),
            None => suggested_tests(texts(files@)) is None,
        },
{
    if in_list(files, "Cargo.toml") {
        Some("cargo test --workspace")
    } else if in_list(files, "package.json") {
        Some("npm test")
    } else if in_list(files, "pyproject.toml") {
        Some("pytest")
    } else if in_list(files, "go.mod") {
        Some("go test ./...")
    } else {
        None
    }
}

/// A line of the card, where there is something to say.
pub open spec fn card_line(label: Seq<char>, what: Option<Seq<char>>) -> Seq<char> {
    match what {
        Some(w) => "- "@ + label + ": "@ + w + "\n"@,
        None => Seq::empty(),
    }
}

/// A list of names on a line, where there are any.
pub open spec fn name_list(names: Seq<Seq<char>>) -> Option<Seq<char>> {
    if names.len() == 0 {
        None
    } else {
        Some(join(names, ", "@))
    }
}

/// The first eight bytes of a root commit.
pub open spec fn short_commit(f: Fingerprint) -> Option<Seq<char>> {
    match f {
        Fingerprint::GitRoot(h) => Some(h@.take(chars_that_fit(h@, 8))),
        Fingerprint::Path(_) => None,
    }
}

/// The card before it is cut.
pub open spec fn full_card(f: CardFacts) -> Seq<char> {
    "project "@ + project_name(f.root@) + " at "@ + f.root@ + "\n"@ + card_line("remote"@, opt_view(f.remote))
        + card_line("branch"@, opt_view(f.branch)) + card_line("root commit"@, short_commit(f.fingerprint)) + card_line(
        "layout"@,
        name_list(sorted(shown_dirs(texts(f.dirs@)))),
    ) + card_line("manifests"@, name_list(present(manifests(), texts(f.files@)))) + card_line(
        "package name"@,
        package_name(opt_view(f.cargo_toml), opt_view(f.package_json), opt_view(f.go_mod)),
    ) + card_line("entry points"@, name_list(present(entry_points(), texts(f.files@)))) + card_line(
        "test command"@,
        suggested_tests(texts(f.files@)),
    )
}

/// The card: cut to its limit, never within a character.
pub open spec fn card(f: CardFacts) -> Seq<char> {
    full_card(f).take(chars_that_fit(full_card(f), CARD_MAX_CHARS as int))
}

fn push_line(out: &mut Vec<char>, label: &str, what: Option<&str>)
    ensures
        final(out)@ == old(out)@ + card_line(label@, opt_str_view(what)),
{
    let ghost start = out@;
    if let Some(w) = what {
        push_text(out, "- ");
        push_text(out, label);
        push_text(out, ": ");
        push_text(out, w);
        push_text(out, "\n");
    }
    assert(out@ =~= start + card_line(label@, opt_str_view(what)));
}

fn push_names(out: &mut Vec<char>, label: &str, names: &Vec<String>)
    ensures
        final(out)@ == old(out)@ + card_line(label@, name_list(texts(names@))),
{
    assert(texts(names@).len() == names@.len());
    if names.len() == 0 {
        push_line(out, label, None);
    } else {
        let j = joined_texts(names.as_slice(), ", ");
        let s = string_of(j.as_slice());
        push_line(out, label, Some(s.as_str()));
    }
}

fn as_text(o: &Option<String>) -> (r: Option<&str>)
    ensures
        opt_str_view(r) == opt_view(*o),
{
    match o {
        Some(s) => Some(s.as_str()),
        None => None,
    }
}

/// Builds the card of a project from what was found at its root.
pub fn build_card(f: &CardFacts) -> (r: String)
    ensures
        r@ == card(*f),
{
    let mut s = chars_of("project ");
    let name = normalize_name(f.root.as_str());
    push_text(&mut s, name.as_str());
    push_text(&mut s, " at ");
    push_text(&mut s, f.root.as_str());
    push_text(&mut s, "\n");
    push_line(&mut s, "remote", as_text(&f.remote));
    push_line(&mut s, "branch", as_text(&f.branch));
    match &f.fingerprint {
        Fingerprint::GitRoot(h) => {
            let hc = chars_of(h.as_str());
            let short = string_of(fit(hc.as_slice(), 8));
            push_line(&mut s, "root commit", Some(short.as_str()));
        },
        Fingerprint::Path(_) => {
            push_line(&mut s, "root commit", None);
        },
    }
    let dirs = layout_dirs(&f.dirs);
    push_names(&mut s, "layout", &dirs);
    let all_manifests = manifest_names();
    let found = present_of(&all_manifests, &f.files);
    push_names(&mut s, "manifests", &found);
    let package = manifest_name(as_text(&f.cargo_toml), as_text(&f.package_json), as_text(&f.go_mod));
    push_line(&mut s, "package name", as_text(&package));
    let all_entries = entry_point_names();
    let entries = present_of(&all_entries, &f.files);
    push_names(&mut s, "entry points", &entries);
    push_line(&mut s, "test command", test_command(&f.files));
    string_of(fit(s.as_slice(), CARD_MAX_CHARS))
}

/// A card never exceeds its limit in bytes, and one that fits is not cut.
pub proof fn law_card_fits(f: CardFacts)
    ensures
        width(card(f)) <= CARD_MAX_CHARS,
        width(full_card(f)) <= CARD_MAX_CHARS ==> card(f) == full_card(f),
{
    lemma_fit_is_longest(full_card(f), CARD_MAX_CHARS as int);
    if width(full_card(f)) <= CARD_MAX_CHARS {
        crate::width::lemma_fits_whole(full_card(f), CARD_MAX_CHARS as int);
    }
}

} // verus!
