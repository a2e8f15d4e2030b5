//! The width of text in bytes, as UTF-8 encodes it.

use vstd::prelude::*;

use crate::text::head;

verus! {

/// How many bytes a character takes.
pub open spec fn char_width(c: char) -> int {
    if (c as u32) < 0x80 {
        1
    } else if (c as u32) < 0x800 {
        2
    } else if (c as u32) < 0x10000 {
        3
    } else {
        4
    }
}

/// How many bytes a text takes.
pub open spec fn width(s: Seq<char>) -> int
    decreases s.len(),
{
    if s.len() == 0 {
        0
    } else {
        width(s.drop_last()) + char_width(s.last())
    }
}

/// How many characters the first `n` bytes of a text are; `None` where they
/// end within a character or the text has fewer.
pub open spec fn chars_in(s: Seq<char>, n: int) -> Option<int>
    decreases s.len(),
{
    if n <= 0 {
        Some(0)
    } else if s.len() == 0 || n < char_width(s[0]) {
        None
    } else {
        match chars_in(s.drop_first(), n - char_width(s[0])) {
            Some(k) => Some(k + 1),
            None => None,
        }
    }
}

/// How many characters of a text fit into `n` bytes.
pub open spec fn chars_that_fit(s: Seq<char>, n: int) -> int
    decreases s.len(),
{
    if s.len() == 0 || n < char_width(s[0]) {
        0
    } else {
        1 + chars_that_fit(s.drop_first(), n - char_width(s[0]))
    }
}

fn char_bytes(c: char) -> (r: usize)
    ensures
        r == char_width(c),
{
    let u: u32 = c as u32;
    if u < 0x80 {
        1
    } else if u < 0x800 {
        2
    } else if u < 0x10000 {
        3
    } else {
        4
    }
}

/// Whether a text takes at least `n` bytes.
pub fn at_least_wide(s: &[char], n: usize) -> (r: bool)
    ensures
        r == (width(s@) >= n),
{
    let mut left: usize = n;
    let mut i: usize = 0;
    while i < s.len()
        invariant
            i <= s@.len(),
            left <= n,
            left > 0 ==> width(s@.take(i as int)) == n - left,
            left == 0 ==> width(s@.take(i as int)) >= n,
        decreases s@.len() - i,
    {
        assert(s@.take(i + 1).drop_last() =~= s@.take(i as int));
        let w: usize = char_bytes(s[i]);
        left = if w >= left {
            0
        } else {
            left - w
        };
        i = i + 1;
    }
    assert(s@.take(i as int) =~= s@);
    left == 0
}

/// How many characters the first `n` bytes of a text are.
pub fn count_chars_in(s: &[char], n: usize) -> (r: Option<usize>)
    ensures
        r is Some == chars_in(s@, n as int) is Some,
        r is Some ==> r->0 == chars_in(s@, n as int)->0,
        r is Some ==> r->0 <= s@.len(),
{
    let mut left: usize = n;
    let mut i: usize = 0;
    assert(s@.skip(0) =~= s@);
    while i < s.len() && left > 0
        invariant
            i <= s@.len(),
            match chars_in(s@.skip(i as int), left as int) {
                Some(k) => chars_in(s@, n as int) == Some(i + k),
                None => chars_in(s@, n as int) is None,
            },
        decreases s@.len() - i,
    {
        let w: usize = char_bytes(s[i]);
        assert(s@.skip(i as int).drop_first() =~= s@.skip(i + 1));
        if w > left {
            return None;
        }
        left = left - w;
        i = i + 1;
    }
    if left == 0 {
        Some(i)
    } else {
        None
    }
}

/// The longest beginning of a text that fits into `n` bytes.
pub fn fit<'a>(s: &'a [char], n: usize) -> (r: &'a [char])
    ensures
        r@ == s@.take(chars_that_fit(s@, n as int)),
{
    let mut left: usize = n;
    let mut i: usize = 0;
    assert(s@.skip(0) =~= s@);
    while i < s.len() && char_bytes(s[i]) <= left
        invariant
            i <= s@.len(),
            chars_that_fit(s@, n as int) == i + chars_that_fit(s@.skip(i as int), left as int),
        decreases s@.len() - i,
    {
        assert(s@.skip(i as int).drop_first() =~= s@.skip(i + 1));
        left = left - char_bytes(s[i]);
        i = i + 1;
    }
    head(s, i)
}

proof fn lemma_width_first(s: Seq<char>)
    requires
        s.len() > 0,
    ensures
        width(s) == char_width(s[0]) + width(s.drop_first()),
    decreases s.len(),
{
    if s.len() == 1 {
        assert(s.drop_last() =~= Seq::empty());
        assert(s.drop_first() =~= Seq::empty());
        assert(width(s.drop_last()) == 0);
    } else {
        lemma_width_first(s.drop_last());
        assert(s.drop_last().drop_first() =~= s.drop_first().drop_last());
    }
}

/// What fits does fit, and one more character would not.
pub proof fn lemma_fit_is_longest(s: Seq<char>, n: int)
    requires
        0 <= n,
    ensures
        ({
            let k = chars_that_fit(s, n);
            &&& 0 <= k <= s.len()
            &&& width(s.take(k)) <= n
            &&& k < s.len() ==> width(s.take(k + 1)) > n
        }),
    decreases s.len(),
{
    let k = chars_that_fit(s, n);
    if s.len() == 0 || n < char_width(s[0]) {
        assert(s.take(0) =~= Seq::empty());
        if s.len() > 0 {
            assert(s.take(1).drop_last() =~= Seq::empty());
            assert(width(s.take(1).drop_last()) == 0);
        }
    } else {
        let t = s.drop_first();
        let w = char_width(s[0]);
        lemma_fit_is_longest(t, n - w);
        let j = chars_that_fit(t, n - w);
        assert(s.take(k).drop_first() =~= t.take(j));
        lemma_width_first(s.take(k));
        if k < s.len() {
            assert(s.take(k + 1).drop_first() =~= t.take(j + 1));
            lemma_width_first(s.take(k + 1));
        }
    }
}

/// A text that takes no more than `n` bytes fits whole.
pub proof fn lemma_fits_whole(s: Seq<char>, n: int)
    requires
        width(s) <= n,
    ensures
        s.take(chars_that_fit(s, n)) == s,
    decreases s.len(),
{
    if s.len() > 0 {
        lemma_width_first(s);
        lemma_width_nonneg(s.drop_first());
        lemma_fits_whole(s.drop_first(), n - char_width(s[0]));
        let k = chars_that_fit(s.drop_first(), n - char_width(s[0]));
        lemma_fit_bounds(s.drop_first(), n - char_width(s[0]));
        assert(s.drop_first().take(k).len() == k);
        assert(s.take(k + 1) =~= s);
    } else {
        assert(s.take(0) =~= s);
    }
}

proof fn lemma_fit_bounds(s: Seq<char>, n: int)
    ensures
        0 <= chars_that_fit(s, n) <= s.len(),
    decreases s.len(),
{
    if s.len() > 0 && n >= char_width(s[0]) {
        lemma_fit_bounds(s.drop_first(), n - char_width(s[0]));
    }
}

pub proof fn lemma_width_nonneg(s: Seq<char>)
    ensures
        width(s) >= s.len(),
    decreases s.len(),
{
    if s.len() > 0 {
        lemma_width_nonneg(s.drop_last());
    }
}

/// The first ten bytes of a time stamp, which are its date; the whole of one
/// that has no such beginning.
pub open spec fn date(stamp: Seq<char>) -> Seq<char> {
    match chars_in(stamp, 10) {
        Some(k) => stamp.take(k),
        None => stamp,
    }
}

/// The date of a time stamp.
pub fn date_of<'a>(stamp: &'a [char]) -> (r: &'a [char])
    ensures
        r@ == date(stamp@),
{
    match count_chars_in(stamp, 10) {
        Some(k) => head(stamp, k),
        None => stamp,
    }
}

} // verus!
