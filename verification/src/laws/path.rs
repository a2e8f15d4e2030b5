//! Laws of paths: what a joined path is under, and what its last names are.

use vstd::prelude::*;

use crate::laws::changes::is_slashless;
use crate::laws::text::law_split_undone_by_join;
use crate::path::{
    components, extension, file_name, is_component, is_under, joined_path, named_components, parent_name, same_path, stem,
};
use crate::text::{find_char, lemma_find_char, lemma_rfind_upto, occurs_at, rfind, split};

verus! {

/// Whether a text can name a file in a directory.
pub open spec fn is_file_name(n: Seq<char>) -> bool {
    n.len() > 0 && is_slashless(n) && n != "."@ && n != ".."@
}

proof fn lemma_split_push(d: Seq<char>, n: Seq<char>)
    requires
        is_slashless(n),
    ensures
        split(d + "/"@ + n, '/') == split(d, '/').push(n),
    decreases d.len(),
{
    reveal_strlit("/");
    let p = d + "/"@ + n;
    lemma_find_char(p, '/');
    lemma_find_char(d, '/');
    let k = find_char(p, '/');
    assert(p[d.len() as int] == '/');
    let j = find_char(d, '/');
    if j < d.len() {
        assert(p[j] == d[j]);
        if k < j {
            assert(p[k] == d[k]);
        }
        assert(k == j);
        let e = d.skip(j + 1);
        assert(p.skip(k + 1) =~= e + "/"@ + n);
        assert(p.take(k) =~= d.take(j));
        lemma_split_push(e, n);
        assert(split(p, '/') =~= split(d, '/').push(n));
    } else {
        if k < d.len() {
            assert(p[k] == d[k]);
            assert(d.contains(d[k]));
        }
        assert(k == d.len());
        assert(p.skip(k + 1) =~= n);
        assert(p.take(k) =~= d);
        lemma_find_char(n, '/');
        if find_char(n, '/') < n.len() {
            assert(n.contains(n[find_char(n, '/')]));
        }
        assert(split(n, '/') =~= seq![n]);
        assert(split(p, '/') =~= split(d, '/').push(n));
    }
}

proof fn lemma_named_prefix(a: Seq<Seq<char>>, b: Seq<Seq<char>>, n: int)
    requires
        0 <= n <= a.len(),
        n <= b.len(),
        forall|i: int| 0 <= i < n ==> #[trigger] a[i] == b[i],
    ensures
        named_components(a, n) == named_components(b, n),
    decreases n,
{
    if n > 0 {
        lemma_named_prefix(a, b, n - 1);
        assert(a[n - 1] == b[n - 1]);
    }
}

/// Joining a name to a directory adds one component.
pub proof fn law_joined_name_is_one_more_component(d: Seq<char>, n: Seq<char>)
    requires
        d.len() > 0,
        is_file_name(n),
    ensures
        components(d + "/"@ + n) == components(d).push(n),
{
    reveal_strlit("/");
    let p = d + "/"@ + n;
    lemma_split_push(d, n);
    law_split_undone_by_join(d, '/');
    let a = split(p, '/');
    let b = split(d, '/');
    let m = b.len() as int;
    assert forall|i: int| 0 <= i < m implies #[trigger] a[i] == b[i] by {}
    lemma_named_prefix(a, b, m);
    assert(is_component(a, m));
    assert(p[0] == d[0]);
    assert(components(p) =~= components(d).push(n));
}

/// A file in a directory is under it, bears its own name, and has the
/// directory's name as its parent's.
pub proof fn law_file_in_a_directory(d: Seq<char>, e: Seq<char>, n: Seq<char>)
    requires
        d.len() > 0,
        is_file_name(e),
        is_file_name(n),
    ensures
        is_under(d + "/"@ + n, d),
        !same_path(d + "/"@ + n, d),
        !is_under(d, d + "/"@ + n),
        file_name(d + "/"@ + n) == Some(n),
        parent_name(d + "/"@ + e + "/"@ + n) == Some(e),
        is_under(d + "/"@ + e + "/"@ + n, d),
{
    reveal_strlit("/");
    reveal_strlit(".");
    reveal_strlit("..");
    law_joined_name_is_one_more_component(d, n);
    law_joined_name_is_one_more_component(d, e);
    law_joined_name_is_one_more_component(d + "/"@ + e, n);
    let c = components(d);
    let p = d + "/"@ + e + "/"@ + n;
    assert(c.push(n).take(c.len() as int) =~= c);
    assert(components(p) =~= c.push(e).push(n));
    assert(components(p).take(c.len() as int) =~= c);
    assert(c.push(n).len() == c.len() + 1);
    assert(n != "/"@) by {
        if n == "/"@ {
            assert(n[0] == '/');
            assert(n.contains(n[0]));
        }
    }
    assert(e != "/"@) by {
        if e == "/"@ {
            assert(e[0] == '/');
            assert(e.contains(e[0]));
        }
    }
    assert(components(p)[components(p).len() - 2] == e);
}

/// Paths with the same components are the same, and each is under the other;
/// what is under each other is the same.
pub proof fn law_same_paths_are_under_each_other(a: Seq<char>, b: Seq<char>)
    ensures
        same_path(a, b) <==> is_under(a, b) && is_under(b, a),
{
    let x = components(a);
    let y = components(b);
    if same_path(a, b) {
        assert(x.take(x.len() as int) =~= x);
    }
    if is_under(a, b) && is_under(b, a) {
        assert(x.take(y.len() as int) =~= x);
    }
}

/// A relative path is joined behind a slash, one that is rooted stands alone.
pub proof fn law_joined_paths(base: Seq<char>, rel: Seq<char>)
    requires
        rel.len() > 0,
    ensures
        rel[0] == '/' ==> joined_path(base, rel) == rel,
        rel[0] != '/' && base.len() > 0 && base.last() != '/' ==> joined_path(base, rel) == base + "/"@ + rel,
        rel[0] != '/' && base.len() > 0 && base.last() == '/' ==> joined_path(base, rel) == base + rel,
        rel[0] != '/' && base.len() == 0 ==> joined_path(base, rel) == rel,
{
    if base.len() == 0 {
        assert(base + rel =~= rel);
    }
}

/// A name is its stem, a dot and its extension.
pub proof fn law_stem_and_extension(s: Seq<char>, e: Seq<char>)
    requires
        s.len() > 0,
        !e.contains('.'),
    ensures
        stem(s + "."@ + e) == s,
        extension(s + "."@ + e) == Some(e),
{
    reveal_strlit(".");
    let n = s + "."@ + e;
    let k = s.len() as int;
    lemma_rfind_upto(n, "."@, n.len() - 1);
    assert(n.subrange(k, k + 1) =~= "."@);
    assert(occurs_at(n, "."@, k));
    assert forall|j: int| k < j < n.len() implies !occurs_at(n, "."@, j) by {
        if occurs_at(n, "."@, j) {
            assert(n.subrange(j, j + 1)[0] == n[j]);
            assert(n[j] == e[j - k - 1]);
            assert(e.contains(e[j - k - 1]));
        }
    }
    assert(rfind(n, "."@) == k);
    assert(n.take(k) =~= s);
    assert(n.skip(k + 1) =~= e);
}

} // verus!
