//! Laws of the text functions.

use vstd::prelude::*;

use crate::text::{
    concat, contains, find, find_char, is_space, join, lemma_find_char, lemma_find_from, lemma_word_len, lines,
    occurs_at, split, split_on, trim, trim_end, trim_start, word_len, words,
};

verus! {

/// Whether a text holds nothing but white space.
pub open spec fn all_space(s: Seq<char>) -> bool {
    forall|i: int| 0 <= i < s.len() ==> is_space(#[trigger] s[i])
}

/// Whether a text neither begins nor ends with white space.
pub open spec fn is_bare(s: Seq<char>) -> bool {
    s.len() > 0 ==> !is_space(s[0]) && !is_space(s.last())
}

proof fn lemma_trim_start(s: Seq<char>)
    ensures
        exists|a: Seq<char>| all_space(a) && #[trigger] (a + trim_start(s)) == s,
        trim_start(s).len() > 0 ==> !is_space(trim_start(s)[0]),
    decreases s.len(),
{
    if s.len() > 0 && is_space(s[0]) {
        lemma_trim_start(s.drop_first());
        let a = choose|a: Seq<char>| all_space(a) && #[trigger] (a + trim_start(s.drop_first())) == s.drop_first();
        let b = seq![s[0]] + a;
        assert(s =~= seq![s[0]] + s.drop_first());
        assert(b + trim_start(s) =~= seq![s[0]] + (a + trim_start(s.drop_first())));
        assert(all_space(b));
    } else {
        let a: Seq<char> = Seq::empty();
        assert(a + trim_start(s) =~= s);
        assert(all_space(a));
    }
}

proof fn lemma_trim_end(s: Seq<char>)
    ensures
        exists|b: Seq<char>| all_space(b) && #[trigger] (trim_end(s) + b) == s,
        trim_end(s).len() > 0 ==> !is_space(trim_end(s).last()),
        trim_end(s).len() > 0 ==> s.len() > 0 && trim_end(s)[0] == s[0],
    decreases s.len(),
{
    if s.len() > 0 && is_space(s.last()) {
        lemma_trim_end(s.drop_last());
        let b = choose|b: Seq<char>| all_space(b) && #[trigger] (trim_end(s.drop_last()) + b) == s.drop_last();
        let c = b.push(s.last());
        assert(s =~= s.drop_last().push(s.last()));
        assert(trim_end(s) + c =~= (trim_end(s.drop_last()) + b).push(s.last()));
        assert(all_space(c));
    } else {
        let b: Seq<char> = Seq::empty();
        assert(trim_end(s) + b =~= s);
        assert(all_space(b));
    }
}

/// Trimming takes white space off both ends, all of it and nothing else.
pub proof fn law_trim(s: Seq<char>)
    ensures
        exists|a: Seq<char>, b: Seq<char>| all_space(a) && all_space(b) && #[trigger] (a + trim(s) + b) == s,
        is_bare(trim(s)),
{
    lemma_trim_start(s);
    lemma_trim_end(trim_start(s));
    let a = choose|a: Seq<char>| all_space(a) && #[trigger] (a + trim_start(s)) == s;
    let b = choose|b: Seq<char>| all_space(b) && #[trigger] (trim_end(trim_start(s)) + b) == trim_start(s);
    assert(a + trim(s) + b =~= s);
}

pub proof fn lemma_trim_start_pad(a: Seq<char>, s: Seq<char>)
    requires
        all_space(a),
        s.len() > 0 ==> !is_space(s[0]),
    ensures
        trim_start(a + s) == s,
    decreases a.len(),
{
    if a.len() > 0 {
        assert((a + s)[0] == a[0]);
        assert(is_space(a[0]));
        assert((a + s).drop_first() =~= a.drop_first() + s);
        assert forall|i: int| 0 <= i < a.drop_first().len() implies is_space(#[trigger] a.drop_first()[i]) by {
            assert(a.drop_first()[i] == a[i + 1]);
        }
        lemma_trim_start_pad(a.drop_first(), s);
    } else {
        assert(a + s =~= s);
    }
}

proof fn lemma_trim_end_pad(s: Seq<char>, b: Seq<char>)
    requires
        all_space(b),
        s.len() > 0 ==> !is_space(s.last()),
    ensures
        trim_end(s + b) == s,
    decreases b.len(),
{
    if b.len() > 0 {
        assert((s + b).last() == b.last());
        assert(is_space(b[b.len() - 1]));
        assert((s + b).drop_last() =~= s + b.drop_last());
        assert forall|i: int| 0 <= i < b.drop_last().len() implies is_space(#[trigger] b.drop_last()[i]) by {
            assert(b.drop_last()[i] == b[i]);
        }
        lemma_trim_end_pad(s, b.drop_last());
    } else {
        assert(s + b =~= s);
    }
}

/// White space around a text is what trimming takes away.
pub proof fn law_trim_of_padded(a: Seq<char>, s: Seq<char>, b: Seq<char>)
    requires
        all_space(a),
        all_space(b),
        is_bare(s),
    ensures
        trim(a + s + b) == s,
{
    if s.len() > 0 {
        assert((s + b)[0] == s[0]);
        assert(a + s + b =~= a + (s + b));
        lemma_trim_start_pad(a, s + b);
        lemma_trim_end_pad(s, b);
    } else {
        let c = a + b;
        assert(a + s + b =~= c);
        assert(all_space(c)) by {
            assert forall|i: int| 0 <= i < c.len() implies is_space(#[trigger] c[i]) by {
                if i < a.len() {
                    assert(c[i] == a[i]);
                } else {
                    assert(c[i] == b[i - a.len()]);
                }
            }
        }
        lemma_trim_start_pad(c, s);
        assert(c + s =~= c);
        assert(trim_end(s) =~= s);
    }
}

/// A text that is its own trim has no white space at its ends.
pub proof fn lemma_own_trim_is_bare(s: Seq<char>)
    requires
        trim(s) == s,
    ensures
        is_bare(s),
{
    law_trim(s);
}

// --- pieces ---

proof fn lemma_join_first(p: Seq<Seq<char>>, sep: Seq<char>)
    requires
        p.len() > 1,
    ensures
        join(p, sep) == p[0] + sep + join(p.drop_first(), sep),
{
    crate::improve::outcome::lemma_join_front(p, sep);
}

/// The pieces of a text hold no separator, and joined they are the text again.
pub proof fn law_split_undone_by_join(s: Seq<char>, c: char)
    ensures
        split(s, c).len() > 0,
        join(split(s, c), seq![c]) == s,
        forall|i: int| 0 <= i < split(s, c).len() ==> !(#[trigger] split(s, c)[i]).contains(c),
    decreases s.len(),
{
    lemma_find_char(s, c);
    let k = find_char(s, c);
    let p = split(s, c);
    if 0 <= k < s.len() {
        let rest = s.skip(k + 1);
        law_split_undone_by_join(rest, c);
        assert(p.drop_first() =~= split(rest, c));
        lemma_join_first(p, seq![c]);
        assert(s =~= s.take(k) + seq![c] + rest);
        assert forall|i: int| 0 <= i < p.len() implies !(#[trigger] p[i]).contains(c) by {
            if i == 0 {
                assert forall|j: int| 0 <= j < k implies s.take(k)[j] != c by {
                    assert(s.take(k)[j] == s[j]);
                }
            } else {
                assert(p[i] == split(rest, c)[i - 1]);
            }
        }
    }
}

/// The pieces that were joined come apart again.
pub proof fn law_join_undone_by_split(p: Seq<Seq<char>>, c: char)
    requires
        p.len() > 0,
        forall|i: int| 0 <= i < p.len() ==> !(#[trigger] p[i]).contains(c),
    ensures
        split(join(p, seq![c]), c) == p,
    decreases p.len(),
{
    let s = join(p, seq![c]);
    lemma_find_char(s, c);
    if p.len() == 1 {
        assert(!p[0].contains(c));
        assert(find_char(s, c) == s.len()) by {
            if find_char(s, c) < s.len() {
                assert(s.contains(s[find_char(s, c)]));
            }
        }
        assert(split(s, c) =~= p);
    } else {
        lemma_join_first(p, seq![c]);
        let q = p.drop_first();
        let n = p[0].len() as int;
        assert(s[n] == c);
        assert(!p[0].contains(c));
        assert forall|j: int| 0 <= j < n implies s[j] != c by {
            assert(s[j] == p[0][j]);
            assert(p[0].contains(p[0][j]));
        }
        assert(find_char(s, c) == n);
        assert(s.take(n) =~= p[0]);
        assert(s.skip(n + 1) =~= join(q, seq![c]));
        assert forall|i: int| 0 <= i < q.len() implies !(#[trigger] q[i]).contains(c) by {
            assert(q[i] == p[i + 1]);
        }
        law_join_undone_by_split(q, c);
        assert(split(s, c) =~= p);
    }
}

/// What follows a line break begins a line of its own.
pub proof fn law_lines_append(a: Seq<char>, b: Seq<char>)
    requires
        a.len() > 0 ==> a.last() == '\n',
    ensures
        lines(a + b) == lines(a) + lines(b),
    decreases a.len(),
{
    if a.len() == 0 {
        assert(a + b =~= b);
        assert(lines(a) + lines(b) =~= lines(b));
    } else {
        let s = a + b;
        lemma_find_char(a, '\n');
        lemma_find_char(s, '\n');
        let k = find_char(a, '\n');
        assert(a[a.len() - 1] == '\n');
        assert(k < a.len());
        assert(s[k] == a[k]);
        let m = find_char(s, '\n');
        if m < k {
            assert(s[m] == a[m]);
        }
        if k < m {
            assert(s[k] != '\n');
        }
        assert(m == k);
        assert(s.take(k) =~= a.take(k));
        assert(s.skip(k + 1) =~= a.skip(k + 1) + b);
        law_lines_append(a.skip(k + 1), b);
        assert(lines(s) =~= lines(a) + lines(b));
    }
}

/// A text without a line break is one line.
pub proof fn law_one_line(s: Seq<char>)
    requires
        s.len() > 0,
        !s.contains('\n'),
    ensures
        lines(s) == seq![s],
{
    lemma_find_char(s, '\n');
    if find_char(s, '\n') < s.len() {
        assert(s.contains(s[find_char(s, '\n')]));
    }
}

/// What stands between two texts stands in the whole.
pub proof fn lemma_stands_between(a: Seq<char>, p: Seq<char>, b: Seq<char>)
    ensures
        contains(a + p + b, p),
{
    assert((a + p + b).subrange(a.len() as int, (a.len() + p.len()) as int) =~= p);
    assert(occurs_at(a + p + b, p, a.len() as int));
}

/// What stands in a part stands in the whole.
pub proof fn lemma_stands_in_part(a: Seq<char>, s: Seq<char>, b: Seq<char>, p: Seq<char>)
    requires
        contains(s, p),
    ensures
        contains(a + s + b, p),
{
    let i = choose|i: int| occurs_at(s, p, i);
    let w = a + s + b;
    assert(w.subrange(a.len() + i, a.len() + i + p.len()) =~= s.subrange(i, i + p.len()));
    assert(occurs_at(w, p, a.len() + i));
}

// --- words ---

/// Whether a text is a word: not empty and without white space.
pub open spec fn is_word(w: Seq<char>) -> bool {
    w.len() > 0 && forall|i: int| 0 <= i < w.len() ==> !is_space(#[trigger] w[i])
}

proof fn lemma_word_len_is(w: Seq<char>, rest: Seq<char>)
    requires
        forall|i: int| 0 <= i < w.len() ==> !is_space(#[trigger] w[i]),
        rest.len() > 0 ==> is_space(rest[0]),
    ensures
        word_len(w + rest) == w.len(),
    decreases w.len(),
{
    let s = w + rest;
    if w.len() > 0 {
        assert(s[0] == w[0]);
        assert(!is_space(w[0]));
        let v = w.drop_first();
        assert(s.drop_first() =~= v + rest);
        assert forall|i: int| 0 <= i < v.len() implies !is_space(#[trigger] v[i]) by {
            assert(v[i] == w[i + 1]);
        }
        lemma_word_len_is(v, rest);
    } else {
        assert(s =~= rest);
    }
}

/// The words of a word and what comes behind white space.
pub proof fn lemma_words_front(w: Seq<char>, rest: Seq<char>)
    requires
        is_word(w),
        rest.len() > 0 ==> is_space(rest[0]),
    ensures
        words(w + rest) == seq![w] + words(rest),
{
    let s = w + rest;
    lemma_word_len_is(w, rest);
    assert(s[0] == w[0]);
    assert(!is_space(w[0]));
    assert(s.take(w.len() as int) =~= w);
    assert(s.skip(w.len() as int) =~= rest);
}

/// White space before a text adds no word.
pub proof fn lemma_words_skip(a: Seq<char>, s: Seq<char>)
    requires
        all_space(a),
    ensures
        words(a + s) == words(s),
    decreases a.len(),
{
    if a.len() > 0 {
        assert((a + s)[0] == a[0]);
        assert(is_space(a[0]));
        let b = a.drop_first();
        assert((a + s).drop_first() =~= b + s);
        assert forall|i: int| 0 <= i < b.len() implies is_space(#[trigger] b[i]) by {
            assert(b[i] == a[i + 1]);
        }
        lemma_words_skip(b, s);
    } else {
        assert(a + s =~= s);
    }
}

/// Words that were joined by spaces come apart again.
pub proof fn law_words_of_joined_words(ws: Seq<Seq<char>>)
    requires
        forall|i: int| 0 <= i < ws.len() ==> is_word(#[trigger] ws[i]),
    ensures
        words(join(ws, " "@)) == ws,
    decreases ws.len(),
{
    reveal_strlit(" ");
    let none: Seq<char> = Seq::empty();
    if ws.len() == 0 {
        assert(words(join(ws, " "@)) =~= ws);
    } else if ws.len() == 1 {
        assert(is_word(ws[0]));
        lemma_words_front(ws[0], none);
        assert(ws[0] + none =~= ws[0]);
        assert(words(none) =~= Seq::empty());
        assert(seq![ws[0]] + words(none) =~= ws);
    } else {
        let q = ws.drop_first();
        assert forall|i: int| 0 <= i < q.len() implies is_word(#[trigger] q[i]) by {
            assert(q[i] == ws[i + 1]);
        }
        law_words_of_joined_words(q);
        lemma_join_first(ws, " "@);
        let rest = " "@ + join(q, " "@);
        assert(is_word(ws[0]));
        assert(join(ws, " "@) =~= ws[0] + rest);
        lemma_words_front(ws[0], rest);
        assert(all_space(" "@));
        lemma_words_skip(" "@, join(q, " "@));
        assert(seq![ws[0]] + q =~= ws);
    }
}

/// The words of a text are words, and together they hold every character of
/// the text that is no white space, in order.
pub proof fn law_words_hold_all_but_space(s: Seq<char>)
    ensures
        forall|i: int| 0 <= i < words(s).len() ==> is_word(#[trigger] words(s)[i]),
        concat(words(s)) == s.filter(|c: char| !is_space(c)),
    decreases s.len(),
{
    let keep = |c: char| !is_space(c);
    if s.len() == 0 {
        reveal(Seq::filter);
        assert(concat(words(s)) =~= s.filter(keep));
    } else if is_space(s[0]) {
        let d = s.drop_first();
        law_words_hold_all_but_space(d);
        assert(s =~= seq![s[0]] + d);
        Seq::filter_distributes_over_add(seq![s[0]], d, keep);
        lemma_filter_none(seq![s[0]], keep);
        assert(s.filter(keep) =~= d.filter(keep));
    } else {
        let k = word_len(s);
        lemma_word_len(s);
        let w = s.take(k);
        let rest = s.skip(k);
        assert(k > 0);
        law_words_hold_all_but_space(rest);
        assert(words(s) == seq![w] + words(rest));
        assert(s =~= w + rest);
        Seq::filter_distributes_over_add(w, rest, keep);
        assert forall|j: int| 0 <= j < w.len() implies !is_space(#[trigger] w[j]) by {
            assert(w[j] == s[j]);
        }
        lemma_filter_all(w, keep);
        lemma_concat_front(w, words(rest));
        assert forall|i: int| 0 <= i < words(s).len() implies is_word(#[trigger] words(s)[i]) by {
            if i > 0 {
                assert(words(s)[i] == words(rest)[i - 1]);
            }
        }
    }
}

pub proof fn lemma_filter_none(s: Seq<char>, p: spec_fn(char) -> bool)
    requires
        forall|i: int| 0 <= i < s.len() ==> !p(#[trigger] s[i]),
    ensures
        s.filter(p) == Seq::<char>::empty(),
    decreases s.len(),
{
    reveal(Seq::filter);
    if s.len() > 0 {
        let d = s.drop_last();
        assert forall|i: int| 0 <= i < d.len() implies !p(#[trigger] d[i]) by {
            assert(d[i] == s[i]);
        }
        lemma_filter_none(d, p);
        assert(s[s.len() - 1] == s.last());
    } else {
        assert(s.filter(p) =~= Seq::<char>::empty());
    }
}

pub proof fn lemma_filter_all(s: Seq<char>, p: spec_fn(char) -> bool)
    requires
        forall|i: int| 0 <= i < s.len() ==> p(#[trigger] s[i]),
    ensures
        s.filter(p) == s,
    decreases s.len(),
{
    reveal(Seq::filter);
    if s.len() > 0 {
        let d = s.drop_last();
        assert forall|i: int| 0 <= i < d.len() implies p(#[trigger] d[i]) by {
            assert(d[i] == s[i]);
        }
        lemma_filter_all(d, p);
        assert(s[s.len() - 1] == s.last());
        assert(d.push(s.last()) =~= s);
    }
}

pub proof fn lemma_concat_front(w: Seq<char>, ws: Seq<Seq<char>>)
    ensures
        concat(seq![w] + ws) == w + concat(ws),
    decreases ws.len(),
{
    let all = seq![w] + ws;
    if ws.len() == 0 {
        assert(all.drop_last() =~= Seq::empty());
        assert(concat(all.drop_last()) =~= Seq::<char>::empty());
        assert(concat(ws) =~= Seq::<char>::empty());
        assert(all.last() == w);
        assert(concat(all) =~= w + concat(ws));
    } else {
        assert(all.drop_last() =~= seq![w] + ws.drop_last());
        lemma_concat_front(w, ws.drop_last());
        assert(all.last() == ws.last());
        assert(concat(all) =~= w + concat(ws));
    }
}

/// The pieces of a text between separators, joined by them, are the text.
pub proof fn law_split_on_undone_by_join(s: Seq<char>, sep: Seq<char>)
    requires
        sep.len() > 0,
    ensures
        split_on(s, sep).len() > 0,
        join(split_on(s, sep), sep) == s,
        forall|i: int| 0 <= i < split_on(s, sep).len() ==> !contains(#[trigger] split_on(s, sep)[i], sep),
    decreases s.len(),
{
    let p = split_on(s, sep);
    lemma_find_from(s, sep, 0);
    let k = find(s, sep);
    if 0 <= k && k + sep.len() <= s.len() {
        let rest = s.skip(k + sep.len());
        law_split_on_undone_by_join(rest, sep);
        assert(p.drop_first() =~= split_on(rest, sep));
        lemma_join_first(p, sep);
        assert(occurs_at(s, sep, k));
        assert(s =~= s.take(k) + sep + rest);
        assert forall|i: int| 0 <= i < p.len() implies !contains(#[trigger] p[i], sep) by {
            if i == 0 {
                if contains(p[0], sep) {
                    let j = choose|j: int| occurs_at(p[0], sep, j);
                    assert(s.subrange(j, j + sep.len()) =~= p[0].subrange(j, j + sep.len()));
                    assert(occurs_at(s, sep, j));
                }
            } else {
                assert(p[i] == split_on(rest, sep)[i - 1]);
            }
        }
    } else {
        assert(p =~= seq![s]);
        if contains(s, sep) {
            let j = choose|j: int| occurs_at(s, sep, j);
            assert(occurs_at(s, sep, j));
        }
    }
}

} // verus!
