//! Letter case: ASCII case folding, and Unicode case for comparison with
//! fixed ASCII words.

use vstd::prelude::*;

use crate::text::{chars_of, head};

verus! {

/// `c` with an ASCII capital made small.
pub open spec fn ascii_lower(c: char) -> char {
    if 'A' <= c <= 'Z' {
        (c as u32 + 32) as char
    } else {
        c
    }
}

/// `s` with its ASCII capitals made small.
pub open spec fn ascii_lower_all(s: Seq<char>) -> Seq<char> {
    Seq::new(s.len(), |i: int| ascii_lower(s[i]))
}

/// `c` with a small ASCII letter made a capital.
pub open spec fn ascii_upper(c: char) -> char {
    if 'a' <= c <= 'z' {
        (c as u32 - 32) as char
    } else {
        c
    }
}

/// `s` with its small ASCII letters made capitals.
pub open spec fn ascii_upper_all(s: Seq<char>) -> Seq<char> {
    Seq::new(s.len(), |i: int| ascii_upper(s[i]))
}

/// Whether two texts differ at most in the case of ASCII letters.
pub open spec fn same_letters(a: Seq<char>, b: Seq<char>) -> bool {
    ascii_lower_all(a) == ascii_lower_all(b)
}

/// Whether `s` starts with `p`, up to the case of ASCII letters.
pub open spec fn starts_with_letters(s: Seq<char>, p: Seq<char>) -> bool {
    p.len() <= s.len() && same_letters(s.take(p.len() as int), p)
}

pub open spec fn is_ascii_alnum(c: char) -> bool {
    'a' <= c <= 'z' || 'A' <= c <= 'Z' || '0' <= c <= '9'
}

/// The Unicode lower case of `c` where that is one ASCII character: the Kelvin
/// sign is the only character outside ASCII that has one.
pub open spec fn unicode_lower(c: char) -> char {
    if c == '\u{212A}' {
        'k'
    } else {
        ascii_lower(c)
    }
}

/// Whether the Unicode lower case of `s` is the ASCII word `w`.
pub open spec fn lowers_to(s: Seq<char>, w: Seq<char>) -> bool {
    s.len() == w.len() && forall|i: int| 0 <= i < s.len() ==> unicode_lower(#[trigger] s[i]) == w[i]
}

/// The Unicode upper case of `c` where that is one ASCII character: outside
/// ASCII only the dotless i and the long s have one.
pub open spec fn unicode_upper(c: char) -> char {
    if c == '\u{131}' {
        'I'
    } else if c == '\u{17F}' {
        'S'
    } else if 'a' <= c <= 'z' {
        (c as u32 - 32) as char
    } else {
        c
    }
}

/// Whether the Unicode upper case of `s` is the ASCII word `w`, for a word that
/// no ligature and no sharp s can spell (none of FF, FI, FL, SS and ST in it).
pub open spec fn uppers_to(s: Seq<char>, w: Seq<char>) -> bool {
    s.len() == w.len() && forall|i: int| 0 <= i < s.len() ==> unicode_upper(#[trigger] s[i]) == w[i]
}

pub fn lower_char(c: char) -> (r: char)
    ensures
        r == ascii_lower(c),
{
    if 'A' <= c && c <= 'Z' {
        let b: u8 = c as u8;
        (b + 32) as char
    } else {
        c
    }
}

pub fn upper_char(c: char) -> (r: char)
    ensures
        r == ascii_upper(c),
{
    if 'a' <= c && c <= 'z' {
        let b: u8 = c as u8;
        (b - 32) as char
    } else {
        c
    }
}

pub fn is_alnum_char(c: char) -> (r: bool)
    ensures
        r == is_ascii_alnum(c),
{
    ('a' <= c && c <= 'z') || ('A' <= c && c <= 'Z') || ('0' <= c && c <= '9')
}

pub fn lower_all(s: &[char]) -> (r: Vec<char>)
    ensures
        r@ == ascii_lower_all(s@),
{
    let mut out: Vec<char> = Vec::new();
    let mut i: usize = 0;
    while i < s.len()
        invariant
            i <= s.len(),
            out@.len() == i,
            forall|j: int| 0 <= j < i ==> out@[j] == ascii_lower(s@[j]),
        decreases s.len() - i,
    {
        out.push(lower_char(s[i]));
        i = i + 1;
    }
    assert(out@ =~= ascii_lower_all(s@));
    out
}

pub fn upper_all(s: &[char]) -> (r: Vec<char>)
    ensures
        r@ == ascii_upper_all(s@),
{
    let mut out: Vec<char> = Vec::new();
    let mut i: usize = 0;
    while i < s.len()
        invariant
            i <= s.len(),
            out@.len() == i,
            forall|j: int| 0 <= j < i ==> out@[j] == ascii_upper(s@[j]),
        decreases s.len() - i,
    {
        out.push(upper_char(s[i]));
        i = i + 1;
    }
    assert(out@ =~= ascii_upper_all(s@));
    out
}

/// Whether `s` is `w` up to the case of ASCII letters.
pub fn same_letters_as(s: &[char], w: &str) -> (r: bool)
    ensures
        r == same_letters(s@, w@),
{
    let wc = chars_of(w);
    let a = lower_all(s);
    let b = lower_all(wc.as_slice());
    crate::text::same(a.as_slice(), b.as_slice())
}

/// Whether `s` starts with `p` up to the case of ASCII letters.
pub fn has_prefix_letters(s: &[char], p: &str) -> (r: bool)
    ensures
        r == starts_with_letters(s@, p@),
{
    let pc = chars_of(p);
    if pc.len() > s.len() {
        return false;
    }
    same_letters_as(head(s, pc.len()), p)
}

/// Whether the Unicode lower case of `s` is `w`.
pub fn lowers_to_word(s: &[char], w: &str) -> (r: bool)
    ensures
        r == lowers_to(s@, w@),
{
    let wc = chars_of(w);
    if s.len() != wc.len() {
        return false;
    }
    let mut i: usize = 0;
    while i < s.len()
        invariant
            i <= s.len(),
            s@.len() == w@.len(),
            wc@ == w@,
            forall|j: int| 0 <= j < i ==> unicode_lower(#[trigger] s@[j]) == w@[j],
        decreases s.len() - i,
    {
        let c: char = if s[i] == '\u{212A}' {
            'k'
        } else {
            lower_char(s[i])
        };
        if c != wc[i] {
            return false;
        }
        i = i + 1;
    }
    true
}

/// Whether the Unicode upper case of `s` is `w`.
pub fn uppers_to_word(s: &[char], w: &str) -> (r: bool)
    ensures
        r == uppers_to(s@, w@),
{
    let wc = chars_of(w);
    if s.len() != wc.len() {
        return false;
    }
    let mut i: usize = 0;
    while i < s.len()
        invariant
            i <= s.len(),
            s@.len() == w@.len(),
            wc@ == w@,
            forall|j: int| 0 <= j < i ==> unicode_upper(#[trigger] s@[j]) == w@[j],
        decreases s.len() - i,
    {
        let x: char = s[i];
        let c: char = if x == '\u{131}' {
            'I'
        } else if x == '\u{17F}' {
            'S'
        } else if 'a' <= x && x <= 'z' {
            let b: u8 = x as u8;
            (b - 32) as char
        } else {
            x
        };
        if c != wc[i] {
            return false;
        }
        i = i + 1;
    }
    true
}

/// Whether every character of a text is ASCII.
pub open spec fn all_ascii(s: Seq<char>) -> bool {
    forall|i: int| 0 <= i < s.len() ==> (#[trigger] s[i] as u32) < 0x80
}

/// The Unicode lower case of a text.
pub uninterp spec fn lowercase_of(s: Seq<char>) -> Seq<char>;

/// `str::to_lowercase`: the lower case of the text, which depends on the text
/// alone, and of an ASCII text is that text with its capitals made small.
#[verifier::external_body]
pub(crate) fn to_lower(s: &str) -> (r: String)
    ensures
        r@ == lowercase_of(s@),
        all_ascii(s@) ==> r@ == ascii_lower_all(s@),
{
    s.to_lowercase()
}

} // verus!
