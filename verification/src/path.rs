//! Paths as texts: their components, and what follows from those.

use vstd::prelude::*;

use crate::code_index::rows::opt_view;
use crate::text::{
    chars_of, head, is_text, last_position, lemma_texts_push, lemma_views_push, push_all, push_text, rfind, same, split,
    split_char, string_of, texts, views,
};

verus! {

/// Whether the `i`-th piece of a path is one of its components: an empty piece
/// is not, and a dot only where the path begins with it.
pub open spec fn is_component(pieces: Seq<Seq<char>>, i: int) -> bool {
    pieces[i].len() > 0 && (pieces[i] != "."@ || i == 0)
}

/// The pieces of a path that are components, among the first `n`.
pub open spec fn named_components(pieces: Seq<Seq<char>>, n: int) -> Seq<Seq<char>>
    decreases n,
{
    if n <= 0 {
        Seq::empty()
    } else {
        let rest = named_components(pieces, n - 1);
        if is_component(pieces, n - 1) {
            rest.push(pieces[n - 1])
        } else {
            rest
        }
    }
}

/// The components of a path: the root (a slash, where the path begins with
/// one) and the names. Doubled and trailing slashes do not count, nor does a
/// dot behind the first place.
pub open spec fn components(path: Seq<char>) -> Seq<Seq<char>> {
    let pieces = split(path, '/');
    (if path.len() > 0 && path[0] == '/' {
        seq!["/"@]
    } else {
        Seq::empty()
    }) + named_components(pieces, pieces.len() as int)
}

/// Whether two texts are the same path.
pub open spec fn same_path(a: Seq<char>, b: Seq<char>) -> bool {
    components(a) == components(b)
}

/// Whether `path` is `base` or lies under it.
pub open spec fn is_under(path: Seq<char>, base: Seq<char>) -> bool {
    let p = components(path);
    let b = components(base);
    b.len() <= p.len() && p.take(b.len() as int) == b
}

/// Whether a component is a name, not the root, a dot or two dots.
pub open spec fn is_name(c: Seq<char>) -> bool {
    c != "/"@ && c != "."@ && c != ".."@
}

/// The last component of a path, where it is a name.
pub open spec fn file_name(path: Seq<char>) -> Option<Seq<char>> {
    let c = components(path);
    if c.len() > 0 && is_name(c.last()) {
        Some(c.last())
    } else {
        None
    }
}

/// The file name of the directory that a path lies in.
pub open spec fn parent_name(path: Seq<char>) -> Option<Seq<char>> {
    let c = components(path);
    if c.len() > 1 && c.last() != "/"@ && is_name(c[c.len() - 2]) {
        Some(c[c.len() - 2])
    } else {
        None
    }
}

/// The file name up to its last dot, unless that is its first character.
pub open spec fn stem(name: Seq<char>) -> Seq<char> {
    let k = rfind(name, "."@);
    if k > 0 {
        name.take(k)
    } else {
        name
    }
}

/// What stands behind the last dot of a file name, unless that is its first
/// character.
pub open spec fn extension(name: Seq<char>) -> Option<Seq<char>> {
    let k = rfind(name, "."@);
    if k > 0 {
        Some(name.skip(k + 1))
    } else {
        None
    }
}

/// `rel` taken from `base`: itself where it begins at the root.
pub open spec fn joined_path(base: Seq<char>, rel: Seq<char>) -> Seq<char> {
    if rel.len() > 0 && rel[0] == '/' {
        rel
    } else if base.len() == 0 || base.last() == '/' {
        base + rel
    } else {
        base + "/"@ + rel
    }
}

/// A path is under itself.
pub proof fn lemma_under_itself(path: Seq<char>)
    ensures
        is_under(path, path),
{
    let c = components(path);
    assert(c.take(c.len() as int) =~= c);
}

/// What lies under a path that lies under another lies under that one.
pub proof fn lemma_under_transitive(a: Seq<char>, b: Seq<char>, c: Seq<char>)
    requires
        is_under(a, b),
        is_under(b, c),
    ensures
        is_under(a, c),
{
    let x = components(a);
    let y = components(b);
    let z = components(c);
    assert(x.take(z.len() as int) =~= x.take(y.len() as int).take(z.len() as int));
}

fn component_slices<'a>(path: &'a [char], root: &'a [char]) -> (r: Vec<&'a [char]>)
    requires
        root@ == "/"@,
    ensures
        views(r@) == components(path@),
{
    let pieces = split_char(path, '/');
    let ghost pv = views(pieces@);
    let mut out: Vec<&'a [char]> = Vec::new();
    if path.len() > 0 && path[0] == '/' {
        proof {
            lemma_views_push(out@, root);
            assert(views(out@) =~= Seq::empty());
        }
        out.push(root);
        assert(views(out@) =~= seq!["/"@]);
    } else {
        assert(views(out@) =~= Seq::empty());
    }
    let ghost base = views(out@);
    let mut i: usize = 0;
    assert(views(out@) =~= base + named_components(pv, 0));
    while i < pieces.len()
        invariant
            i <= pieces@.len(),
            pv == views(pieces@),
            views(out@) == base + named_components(pv, i as int),
        decreases pieces@.len() - i,
    {
        let piece: &'a [char] = pieces[i];
        assert(pv[i as int] == piece@);
        if piece.len() > 0 && (!is_text(piece, ".") || i == 0) {
            proof {
                lemma_views_push(out@, piece);
            }
            out.push(piece);
        }
        i = i + 1;
        assert(views(out@) =~= base + named_components(pv, i as int));
    }
    assert(pv.len() == pieces@.len());
    out
}

/// The components of a path.
pub fn path_components(path: &str) -> (r: Vec<String>)
    ensures
        texts(r@) == components(path@),
{
    let root = chars_of("/");
    let pc = chars_of(path);
    let c = component_slices(pc.as_slice(), root.as_slice());
    let ghost cv = views(c@);
    let mut out: Vec<String> = Vec::new();
    let mut i: usize = 0;
    assert(texts(out@) =~= cv.take(0));
    while i < c.len()
        invariant
            i <= c@.len(),
            cv == views(c@),
            texts(out@) == cv.take(i as int),
        decreases c@.len() - i,
    {
        let s = string_of(c[i]);
        proof {
            lemma_texts_push(out@, s);
            assert(cv.take(i + 1) =~= cv.take(i as int).push(cv[i as int]));
        }
        out.push(s);
        i = i + 1;
    }
    assert(cv.take(i as int) =~= cv);
    out
}

/// Whether two texts are the same path.
pub fn paths_equal(a: &str, b: &str) -> (r: bool)
    ensures
        r == same_path(a@, b@),
{
    let root = chars_of("/");
    let ac = chars_of(a);
    let bc = chars_of(b);
    let x = component_slices(ac.as_slice(), root.as_slice());
    let y = component_slices(bc.as_slice(), root.as_slice());
    let ghost xv = views(x@);
    let ghost yv = views(y@);
    assert(xv.len() == x@.len() && yv.len() == y@.len());
    if x.len() != y.len() {
        return false;
    }
    let mut i: usize = 0;
    while i < x.len()
        invariant
            i <= x@.len(),
            x@.len() == y@.len(),
            xv == views(x@),
            yv == views(y@),
            xv == components(a@),
            yv == components(b@),
            forall|j: int| 0 <= j < i ==> #[trigger] xv[j] == yv[j],
        decreases x@.len() - i,
    {
        if !same(x[i], y[i]) {
            assert(xv[i as int] != yv[i as int]);
            return false;
        }
        i = i + 1;
    }
    assert(xv =~= yv);
    true
}

/// Whether `path` is `base` or lies under it.
pub fn path_under(path: &str, base: &str) -> (r: bool)
    ensures
        r == is_under(path@, base@),
{
    let root = chars_of("/");
    let pc = chars_of(path);
    let bc = chars_of(base);
    let p = component_slices(pc.as_slice(), root.as_slice());
    let b = component_slices(bc.as_slice(), root.as_slice());
    let ghost pv = views(p@);
    let ghost bv = views(b@);
    assert(pv.len() == p@.len() && bv.len() == b@.len());
    if b.len() > p.len() {
        return false;
    }
    let mut i: usize = 0;
    while i < b.len()
        invariant
            i <= b@.len(),
            b@.len() <= p@.len(),
            pv == views(p@),
            bv == views(b@),
            pv == components(path@),
            bv == components(base@),
            forall|j: int| 0 <= j < i ==> #[trigger] pv[j] == bv[j],
        decreases b@.len() - i,
    {
        if !same(p[i], b[i]) {
            assert(pv.take(bv.len() as int)[i as int] != bv[i as int]);
            return false;
        }
        i = i + 1;
    }
    assert(pv.take(bv.len() as int) =~= bv);
    true
}

fn name_of(c: &[char]) -> (r: bool)
    ensures
        r == is_name(c@),
{
    !is_text(c, "/") && !is_text(c, ".") && !is_text(c, "..")
}

/// The file name of a path.
pub fn path_file_name(path: &str) -> (r: Option<String>)
    ensures
        opt_view(r) == file_name(path@),
{
    let root = chars_of("/");
    let pc = chars_of(path);
    let c = component_slices(pc.as_slice(), root.as_slice());
    let ghost cv = views(c@);
    assert(cv.len() == c@.len());
    if c.len() > 0 {
        let last: &[char] = c[c.len() - 1];
        assert(cv.last() == last@);
        if name_of(last) {
            return Some(string_of(last));
        }
    }
    None
}

/// The file name of the directory that a path lies in.
pub fn path_parent_name(path: &str) -> (r: Option<String>)
    ensures
        opt_view(r) == parent_name(path@),
{
    let root = chars_of("/");
    let pc = chars_of(path);
    let c = component_slices(pc.as_slice(), root.as_slice());
    let ghost cv = views(c@);
    assert(cv.len() == c@.len());
    if c.len() > 1 {
        let last: &[char] = c[c.len() - 1];
        let above: &[char] = c[c.len() - 2];
        assert(cv.last() == last@);
        assert(cv[cv.len() - 2] == above@);
        if !is_text(last, "/") && name_of(above) {
            return Some(string_of(above));
        }
    }
    None
}

/// A file name up to its last dot.
pub fn stem_of(name: &str) -> (r: String)
    ensures
        r@ == stem(name@),
{
    let nc = chars_of(name);
    match last_position(nc.as_slice(), ".") {
        Some(k) => if k > 0 {
            string_of(head(nc.as_slice(), k))
        } else {
            string_of(nc.as_slice())
        },
        None => string_of(nc.as_slice()),
    }
}

/// Whether the file name of a path has the extension.
pub open spec fn has_extension(path: Seq<char>, ext: Seq<char>) -> bool {
    file_name(path) is Some && extension(file_name(path)->0) == Some(ext)
}

/// Whether the file name of a path has the extension.
pub fn path_has_extension(path: &str, ext: &str) -> (r: bool)
    ensures
        r == has_extension(path@, ext@),
{
    match path_file_name(path) {
        Some(name) => {
            let nc = chars_of(name.as_str());
            let end: usize = nc.len();
            proof {
                reveal_strlit(".");
                crate::text::lemma_rfind_upto(nc@, "."@, nc@.len() - 1);
            }
            match last_position(nc.as_slice(), ".") {
                Some(k) => if k > 0 && k < end {
                    is_text(crate::text::tail(nc.as_slice(), k + 1), ext)
                } else {
                    false
                },
                None => false,
            }
        },
        None => false,
    }
}

/// `rel` taken from `base`.
pub fn join_path(base: &str, rel: &str) -> (r: String)
    ensures
        r@ == joined_path(base@, rel@),
{
    let rc = chars_of(rel);
    if rc.len() > 0 && rc[0] == '/' {
        return string_of(rc.as_slice());
    }
    let mut out = chars_of(base);
    if out.len() > 0 && out[out.len() - 1] != '/' {
        push_text(&mut out, "/");
    }
    push_all(&mut out, rc.as_slice());
    string_of(out.as_slice())
}

} // verus!
