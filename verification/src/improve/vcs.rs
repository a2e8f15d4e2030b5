//! What chezmoi and git report of the targets, and what they are told.

use vstd::prelude::*;

use crate::code_index::scope::pairs_view;
use crate::improve::targets::Targets;
use crate::path::{is_under, join_path, joined_path, path_under, paths_equal, same_path};
use crate::text::{
    chars_of, last_position, lemma_texts_push, lines, lines_of, owned, rfind, string_of, tail, texts, trim, trim_end,
    trim_of, trimmed, trimmed_end, trimmed_of, views,
};
use crate::width::{at_least_wide, chars_in, count_chars_in, width};

verus! {

// --- chezmoi ---

/// Whether some path of the list is the same as `p`.
pub open spec fn has_path(list: Seq<Seq<char>>, p: Seq<char>) -> bool {
    exists|i: int| 0 <= i < list.len() && same_path(#[trigger] list[i], p)
}

/// The paths on the lines, without white space around them; no path twice.
pub open spec fn managed_paths(ls: Seq<Seq<char>>) -> Seq<Seq<char>>
    decreases ls.len(),
{
    if ls.len() == 0 {
        Seq::empty()
    } else {
        let rest = managed_paths(ls.drop_last());
        let p = trim(ls.last());
        if p.len() == 0 || has_path(rest, p) {
            rest
        } else {
            rest.push(p)
        }
    }
}

fn holds_path(list: &Vec<String>, p: &str) -> (r: bool)
    ensures
        r == has_path(texts(list@), p@),
{
    let ghost lv = texts(list@);
    let mut i: usize = 0;
    while i < list.len()
        invariant
            i <= list@.len(),
            lv == texts(list@),
            forall|j: int| 0 <= j < i ==> !same_path(#[trigger] lv[j], p@),
        decreases list@.len() - i,
    {
        if paths_equal(list[i].as_str(), p) {
            assert(same_path(lv[i as int], p@));
            return true;
        }
        i = i + 1;
    }
    false
}

/// Reads the list of paths that chezmoi manages.
pub fn parse_chezmoi_managed(out: &str) -> (r: Vec<String>)
    ensures
        texts(r@) == managed_paths(lines(out@)),
{
    let oc = chars_of(out);
    let ls = lines_of(oc.as_slice());
    let ghost lv = views(ls@);
    let mut paths: Vec<String> = Vec::new();
    let mut i: usize = 0;
    assert(texts(paths@) =~= managed_paths(lv.take(0)));
    while i < ls.len()
        invariant
            i <= ls@.len(),
            lv == views(ls@),
            texts(paths@) == managed_paths(lv.take(i as int)),
        decreases ls@.len() - i,
    {
        assert(lv.take(i + 1).drop_last() =~= lv.take(i as int));
        let t = trimmed(ls[i]);
        if t.len() > 0 {
            let p = string_of(t);
            if !holds_path(&paths, p.as_str()) {
                proof {
                    lemma_texts_push(paths@, p);
                }
                paths.push(p);
            }
        }
        i = i + 1;
    }
    assert(lv.take(i as int) =~= lv);
    paths
}

/// Whether the two bytes of a status line's marks end with a character.
pub open spec fn is_status_line(line: Seq<char>) -> bool {
    let l = trim_end(line);
    width(l) >= 4 ==> chars_in(l, 2) is Some
}

/// Whether every line begins with marks of two bytes, as far as it is long
/// enough to be read at all.
pub open spec fn is_status(ls: Seq<Seq<char>>) -> bool {
    forall|i: int| 0 <= i < ls.len() ==> is_status_line(#[trigger] ls[i])
}

/// What stands behind the marks of a status line, where anything does.
pub open spec fn behind_marks(line: Seq<char>) -> Option<Seq<char>> {
    let l = trim_end(line);
    match chars_in(l, 2) {
        Some(k) => if width(l) >= 4 && trim(l.skip(k)).len() > 0 {
            Some(trim(l.skip(k)))
        } else {
            None
        },
        None => None,
    }
}

/// Whether an output can be read as a status: no line's marks end within a
/// character.
pub fn is_status_output(out: &str) -> (r: bool)
    ensures
        r == is_status(lines(out@)),
{
    let oc = chars_of(out);
    let ls = lines_of(oc.as_slice());
    let ghost lv = views(ls@);
    let mut i: usize = 0;
    while i < ls.len()
        invariant
            i <= ls@.len(),
            lv == views(ls@),
            lv == lines(out@),
            forall|j: int| 0 <= j < i ==> is_status_line(#[trigger] lv[j]),
        decreases ls@.len() - i,
    {
        let l = trimmed_end(ls[i]);
        if at_least_wide(l, 4) && count_chars_in(l, 2).is_none() {
            assert(!is_status_line(lv[i as int]));
            return false;
        }
        i = i + 1;
    }
    true
}

fn read_behind_marks<'a>(line: &'a [char]) -> (r: Option<&'a [char]>)
    ensures
        r is Some == behind_marks(line@) is Some,
        r is Some ==> (r->0)@ == behind_marks(line@)->0,
{
    let l = trimmed_end(line);
    if !at_least_wide(l, 4) {
        return None;
    }
    match count_chars_in(l, 2) {
        Some(k) => {
            let p = trimmed(tail(l, k));
            if p.len() > 0 {
                Some(p)
            } else {
                None
            }
        },
        None => None,
    }
}

/// The paths of the status lines.
pub open spec fn status_paths(ls: Seq<Seq<char>>) -> Seq<Seq<char>>
    decreases ls.len(),
{
    if ls.len() == 0 {
        Seq::empty()
    } else {
        match behind_marks(ls.last()) {
            Some(p) => status_paths(ls.drop_last()).push(p),
            None => status_paths(ls.drop_last()),
        }
    }
}

/// Reads the paths that chezmoi reports as out of sync.
pub fn parse_chezmoi_status(out: &str) -> (r: Vec<String>)
    requires
        is_status(lines(out@)),
    ensures
        texts(r@) == status_paths(lines(out@)),
{
    let oc = chars_of(out);
    let ls = lines_of(oc.as_slice());
    let ghost lv = views(ls@);
    let mut paths: Vec<String> = Vec::new();
    let mut i: usize = 0;
    assert(texts(paths@) =~= status_paths(lv.take(0)));
    while i < ls.len()
        invariant
            i <= ls@.len(),
            lv == views(ls@),
            texts(paths@) == status_paths(lv.take(i as int)),
        decreases ls@.len() - i,
    {
        assert(lv.take(i + 1).drop_last() =~= lv.take(i as int));
        assert(lv.take(i + 1).last() == ls@[i as int]@);
        if let Some(p) = read_behind_marks(ls[i]) {
            let s = string_of(p);
            proof {
                lemma_texts_push(paths@, s);
            }
            paths.push(s);
        }
        i = i + 1;
    }
    assert(lv.take(i as int) =~= lv);
    paths
}

/// Whether something managed is the root or lies under it.
pub open spec fn is_managed(managed: Seq<Seq<char>>, root: Seq<char>) -> bool {
    exists|i: int| 0 <= i < managed.len() && is_under(#[trigger] managed[i], root)
}

fn root_managed(managed: &Vec<String>, root: &str) -> (r: bool)
    ensures
        r == is_managed(texts(managed@), root@),
{
    let ghost mv = texts(managed@);
    let mut i: usize = 0;
    while i < managed.len()
        invariant
            i <= managed@.len(),
            mv == texts(managed@),
            forall|j: int| 0 <= j < i ==> !is_under(#[trigger] mv[j], root@),
        decreases managed@.len() - i,
    {
        if path_under(managed[i].as_str(), root) {
            assert(is_under(mv[i as int], root@));
            return true;
        }
        i = i + 1;
    }
    false
}

/// The roots of which nothing is managed.
pub open spec fn unmanaged(managed: Seq<Seq<char>>, roots: Seq<Seq<char>>) -> Seq<Seq<char>>
    decreases roots.len(),
{
    if roots.len() == 0 {
        Seq::empty()
    } else if is_managed(managed, roots.last()) {
        unmanaged(managed, roots.drop_last())
    } else {
        unmanaged(managed, roots.drop_last()).push(roots.last())
    }
}

/// The targets that are not managed: neither they nor anything under them.
pub fn unmanaged_targets(managed: &Vec<String>, targets: &Targets) -> (r: Vec<String>)
    ensures
        texts(r@) == unmanaged(texts(managed@), targets.root_paths()),
{
    let roots = targets.roots();
    let ghost rv = texts(roots@);
    let ghost mv = texts(managed@);
    let mut out: Vec<String> = Vec::new();
    let mut i: usize = 0;
    assert(texts(out@) =~= unmanaged(mv, rv.take(0)));
    while i < roots.len()
        invariant
            i <= roots@.len(),
            rv == texts(roots@),
            mv == texts(managed@),
            texts(out@) == unmanaged(mv, rv.take(i as int)),
        decreases roots@.len() - i,
    {
        assert(rv.take(i + 1).drop_last() =~= rv.take(i as int));
        if !root_managed(managed, roots[i].as_str()) {
            let s = roots[i].clone();
            proof {
                lemma_texts_push(out@, s);
            }
            out.push(s);
        }
        i = i + 1;
    }
    assert(rv.take(i as int) =~= rv);
    out
}

// --- git ---

/// The path of a status line: of a rename the new one, without quotes.
pub open spec fn git_path(rest: Seq<char>) -> Seq<char> {
    let k = rfind(rest, " -> "@);
    trim_of(
        if k >= 0 {
            rest.skip(k + 4)
        } else {
            rest
        },
        '"',
        '"',
    )
}

/// The paths of git's status lines.
pub open spec fn git_paths(ls: Seq<Seq<char>>) -> Seq<Seq<char>>
    decreases ls.len(),
{
    if ls.len() == 0 {
        Seq::empty()
    } else {
        match behind_marks(ls.last()) {
            Some(p) => git_paths(ls.drop_last()).push(git_path(p)),
            None => git_paths(ls.drop_last()),
        }
    }
}

/// Reads the paths that git reports as changed, relative to the repository.
pub fn parse_git_status_paths(out: &str) -> (r: Vec<String>)
    requires
        is_status(lines(out@)),
    ensures
        texts(r@) == git_paths(lines(out@)),
{
    let oc = chars_of(out);
    let ls = lines_of(oc.as_slice());
    let ghost lv = views(ls@);
    let mut paths: Vec<String> = Vec::new();
    let mut i: usize = 0;
    assert(texts(paths@) =~= git_paths(lv.take(0)));
    while i < ls.len()
        invariant
            i <= ls@.len(),
            lv == views(ls@),
            texts(paths@) == git_paths(lv.take(i as int)),
        decreases ls@.len() - i,
    {
        assert(lv.take(i + 1).drop_last() =~= lv.take(i as int));
        assert(lv.take(i + 1).last() == ls@[i as int]@);
        if let Some(rest) = read_behind_marks(ls[i]) {
            proof {
                reveal_strlit(" -> ");
            }
            let end: usize = rest.len();
            let path: &[char] = match last_position(rest, " -> ") {
                Some(k) => {
                    assert(k + 4 <= end);
                    tail(rest, k + 4)
                },
                None => rest,
            };
            let s = string_of(trimmed_of(path, '"', '"'));
            proof {
                lemma_texts_push(paths@, s);
            }
            paths.push(s);
        }
        i = i + 1;
    }
    assert(lv.take(i as int) =~= lv);
    paths
}

/// Whether some changed path is the source or lies under it.
pub open spec fn is_dirty(source: Seq<char>, src_root: Seq<char>, dirty: Seq<Seq<char>>) -> bool {
    exists|i: int| 0 <= i < dirty.len() && is_under(joined_path(src_root, #[trigger] dirty[i]), source)
}

/// The destinations whose source is changed.
pub open spec fn dirty_targets(
    targets: Seq<(Seq<char>, Seq<char>)>,
    src_root: Seq<char>,
    dirty: Seq<Seq<char>>,
) -> Seq<Seq<char>>
    decreases targets.len(),
{
    if targets.len() == 0 {
        Seq::empty()
    } else {
        let rest = dirty_targets(targets.drop_last(), src_root, dirty);
        if is_dirty(targets.last().1, src_root, dirty) {
            rest.push(targets.last().0)
        } else {
            rest
        }
    }
}

fn source_dirty(source: &str, src_root: &str, dirty: &[String]) -> (r: bool)
    ensures
        r == is_dirty(source@, src_root@, texts(dirty@)),
{
    let ghost dv = texts(dirty@);
    let mut i: usize = 0;
    while i < dirty.len()
        invariant
            i <= dirty@.len(),
            dv == texts(dirty@),
            forall|j: int| 0 <= j < i ==> !is_under(joined_path(src_root@, #[trigger] dv[j]), source@),
        decreases dirty@.len() - i,
    {
        let abs = join_path(src_root, dirty[i].as_str());
        if path_under(abs.as_str(), source) {
            assert(is_under(joined_path(src_root@, dv[i as int]), source@));
            return true;
        }
        i = i + 1;
    }
    false
}

/// Of the targets, given as destination and source path, the destinations whose
/// source has a changed path in it; what is changed elsewhere does not count.
pub fn dirty_target_paths(targets: &Vec<(String, String)>, src_root: &str, dirty_relative: &[String]) -> (r: Vec<String>)
    ensures
        texts(r@) == dirty_targets(pairs_view(targets@), src_root@, texts(dirty_relative@)),
{
    let ghost tv = pairs_view(targets@);
    let ghost dv = texts(dirty_relative@);
    let mut out: Vec<String> = Vec::new();
    let mut i: usize = 0;
    assert(texts(out@) =~= dirty_targets(tv.take(0), src_root@, dv));
    while i < targets.len()
        invariant
            i <= targets@.len(),
            tv == pairs_view(targets@),
            dv == texts(dirty_relative@),
            texts(out@) == dirty_targets(tv.take(i as int), src_root@, dv),
        decreases targets@.len() - i,
    {
        assert(tv.take(i + 1).drop_last() =~= tv.take(i as int));
        if source_dirty(targets[i].1.as_str(), src_root, dirty_relative) {
            let s = targets[i].0.clone();
            proof {
                lemma_texts_push(out@, s);
            }
            out.push(s);
        }
        i = i + 1;
    }
    assert(tv.take(i as int) =~= tv);
    out
}

/// Refuses a commit without targets: an empty list of paths would mean the
/// whole repository to git.
pub fn refuse_unscoped_commit(targets: &[String]) -> (r: Result<(), String>)
    ensures
        r is Err <==> targets@.len() == 0,
        r is Err ==> r->Err_0@ == "commit: no targets given (refusing an unscoped commit)"@,
{
    if targets.len() == 0 {
        Err(owned("commit: no targets given (refusing an unscoped commit)"))
    } else {
        Ok(())
    }
}

fn push_paths(argv: &mut Vec<String>, paths: &[String])
    ensures
        texts(final(argv)@) == texts(old(argv)@) + texts(paths@),
{
    let ghost start = texts(argv@);
    let ghost pv = texts(paths@);
    let mut i: usize = 0;
    assert(texts(argv@) =~= start + pv.take(0));
    while i < paths.len()
        invariant
            i <= paths@.len(),
            pv == texts(paths@),
            texts(argv@) == start + pv.take(i as int),
        decreases paths@.len() - i,
    {
        let s = paths[i].clone();
        proof {
            lemma_texts_push(argv@, s);
        }
        argv.push(s);
        i = i + 1;
        assert(texts(argv@) =~= start + pv.take(i as int));
    }
    assert(pv.take(i as int) =~= pv);
}

/// The arguments with which git reports what is not committed in the sources.
pub fn git_status_argv(src_root: &str, source_paths: &[String]) -> (r: Vec<String>)
    ensures
        texts(r@) == seq!["-C"@, src_root@, "status"@, "--porcelain"@, "--"@] + texts(source_paths@),
{
    let mut argv = vec![owned("-C"), owned(src_root), owned("status"), owned("--porcelain"), owned("--")];
    assert(texts(argv@) =~= seq!["-C"@, src_root@, "status"@, "--porcelain"@, "--"@]);
    push_paths(&mut argv, source_paths);
    argv
}

/// The arguments with which git stages the sources, and nothing else.
pub fn git_add_argv(src_root: &str, source_paths: &[String]) -> (r: Vec<String>)
    ensures
        texts(r@) == seq!["-C"@, src_root@, "add"@, "-A"@, "--"@] + texts(source_paths@),
{
    let mut argv = vec![owned("-C"), owned(src_root), owned("add"), owned("-A"), owned("--")];
    assert(texts(argv@) =~= seq!["-C"@, src_root@, "add"@, "-A"@, "--"@]);
    push_paths(&mut argv, source_paths);
    argv
}

/// The arguments with which git commits the sources, and nothing else.
pub fn git_commit_argv(src_root: &str, message: &str, source_paths: &[String]) -> (r: Vec<String>)
    ensures
        texts(r@) == seq!["-C"@, src_root@, "commit"@, "-q"@, "-m"@, message@, "--"@] + texts(source_paths@),
{
    let mut argv = vec![
        owned("-C"),
        owned(src_root),
        owned("commit"),
        owned("-q"),
        owned("-m"),
        owned(message),
        owned("--"),
    ];
    assert(texts(argv@) =~= seq!["-C"@, src_root@, "commit"@, "-q"@, "-m"@, message@, "--"@]);
    push_paths(&mut argv, source_paths);
    argv
}

} // verus!
