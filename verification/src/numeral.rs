//! Decimal numerals: writing integers as text and reading them back.

use vstd::prelude::*;

use crate::text::tail;

verus! {

/// The character of a decimal digit.
pub open spec fn digit(d: int) -> char {
    if d <= 0 {
        '0'
    } else if d == 1 {
        '1'
    } else if d == 2 {
        '2'
    } else if d == 3 {
        '3'
    } else if d == 4 {
        '4'
    } else if d == 5 {
        '5'
    } else if d == 6 {
        '6'
    } else if d == 7 {
        '7'
    } else if d == 8 {
        '8'
    } else {
        '9'
    }
}

/// A natural number in decimal, without leading zeros.
pub open spec fn dec_nat(n: nat) -> Seq<char>
    decreases n,
{
    if n < 10 {
        seq![digit(n as int)]
    } else {
        dec_nat(n / 10).push(digit((n % 10) as int))
    }
}

/// An integer in decimal, with a minus sign where it is negative.
pub open spec fn dec(n: int) -> Seq<char> {
    if n < 0 {
        seq!['-'] + dec_nat((-n) as nat)
    } else {
        dec_nat(n as nat)
    }
}

pub open spec fn is_digit(c: char) -> bool {
    '0' <= c <= '9'
}

pub open spec fn digit_value(c: char) -> nat {
    (c as u32 - '0' as u32) as nat
}

pub open spec fn all_digits(s: Seq<char>) -> bool {
    forall|i: int| 0 <= i < s.len() ==> is_digit(#[trigger] s[i])
}

/// The number that a run of digits stands for.
pub open spec fn value(s: Seq<char>) -> nat
    decreases s.len(),
{
    if s.len() == 0 {
        0
    } else {
        value(s.drop_last()) * 10 + digit_value(s.last())
    }
}

/// What a non-empty run of digits stands for.
pub open spec fn read_nat(s: Seq<char>) -> Option<nat> {
    if s.len() > 0 && all_digits(s) {
        Some(value(s))
    } else {
        None
    }
}

/// What a numeral with an optional leading sign stands for.
pub open spec fn read_int(s: Seq<char>) -> Option<int> {
    if s.len() > 0 && s[0] == '-' {
        match read_nat(s.skip(1)) {
            Some(n) => Some(-(n as int)),
            None => None,
        }
    } else if s.len() > 0 && s[0] == '+' {
        match read_nat(s.skip(1)) {
            Some(n) => Some(n as int),
            None => None,
        }
    } else {
        match read_nat(s) {
            Some(n) => Some(n as int),
            None => None,
        }
    }
}

/// The numeral that `s` is, where it fits in 64 bits with a sign.
pub open spec fn read_i64(s: Seq<char>) -> Option<i64> {
    match read_int(s) {
        Some(n) => if i64::MIN <= n <= i64::MAX {
            Some(n as i64)
        } else {
            None
        },
        None => None,
    }
}

/// The numeral without a minus sign that `s` is, where it fits in 64 bits.
pub open spec fn read_u64(s: Seq<char>) -> Option<u64> {
    match read_int(s) {
        Some(n) => if s[0] != '-' && n <= u64::MAX {
            Some(n as u64)
        } else {
            None
        },
        None => None,
    }
}

/// The numeral without a minus sign that `s` is, where it fits in a `usize`.
pub open spec fn read_usize(s: Seq<char>) -> Option<usize> {
    match read_int(s) {
        Some(n) => if s[0] != '-' && n <= usize::MAX {
            Some(n as usize)
        } else {
            None
        },
        None => None,
    }
}

pub proof fn lemma_dec_nat(n: nat)
    ensures
        dec_nat(n).len() > 0,
        all_digits(dec_nat(n)),
        value(dec_nat(n)) == n,
    decreases n,
{
    if n < 10 {
        let s = dec_nat(n);
        assert(s.drop_last() =~= Seq::empty());
        assert(value(s.drop_last()) == 0);
    } else {
        lemma_dec_nat(n / 10);
        let s = dec_nat(n);
        assert(s.drop_last() =~= dec_nat(n / 10));
        assert forall|i: int| 0 <= i < s.len() implies is_digit(#[trigger] s[i]) by {
            if i < s.len() - 1 {
                assert(s[i] == dec_nat(n / 10)[i]);
            }
        }
    }
}

/// An integer that was written reads back as itself.
pub proof fn law_numeral_reads_back(n: int)
    ensures
        read_int(dec(n)) == Some(n),
{
    if n < 0 {
        let m = (-n) as nat;
        lemma_dec_nat(m);
        assert(dec(n).skip(1) =~= dec_nat(m));
    } else {
        lemma_dec_nat(n as nat);
        assert(is_digit(dec(n)[0]));
    }
}

fn digit_char(d: u64) -> (c: char)
    requires
        d < 10,
    ensures
        c == digit(d as int),
{
    if d == 0 {
        '0'
    } else if d == 1 {
        '1'
    } else if d == 2 {
        '2'
    } else if d == 3 {
        '3'
    } else if d == 4 {
        '4'
    } else if d == 5 {
        '5'
    } else if d == 6 {
        '6'
    } else if d == 7 {
        '7'
    } else if d == 8 {
        '8'
    } else {
        '9'
    }
}

/// Appends `n` in decimal.
pub fn push_u64(out: &mut Vec<char>, n: u64)
    ensures
        final(out)@ == old(out)@ + dec(n as int),
    decreases n,
{
    let ghost start = out@;
    if n >= 10 {
        push_u64(out, n / 10);
    }
    out.push(digit_char(n % 10));
    assert(out@ =~= start + dec_nat(n as nat));
}

/// Appends `n` in decimal.
pub fn push_usize(out: &mut Vec<char>, n: usize)
    ensures
        final(out)@ == old(out)@ + dec(n as int),
{
    push_u64(out, n as u64);
}

/// Appends `n` in decimal.
pub fn push_i64(out: &mut Vec<char>, n: i64)
    ensures
        final(out)@ == old(out)@ + dec(n as int),
{
    if n < 0 {
        let ghost start = out@;
        out.push('-');
        let m: i128 = -(n as i128);
        push_u64(out, m as u64);
        assert(out@ =~= start + (seq!['-'] + dec_nat((-n) as nat)));
    } else {
        push_u64(out, n as u64);
    }
}

proof fn lemma_value_grows(s: Seq<char>, i: int)
    requires
        0 <= i <= s.len(),
    ensures
        value(s.take(i)) <= value(s),
    decreases s.len() - i,
{
    if i == s.len() {
        assert(s.take(i) =~= s);
    } else {
        lemma_value_grows(s, i + 1);
        assert(s.take(i + 1).drop_last() =~= s.take(i));
    }
}

/// The number that a non-empty run of digits stands for, where it is at most
/// `max`.
fn digits_upto(s: &[char], max: u64) -> (r: Option<u64>)
    ensures
        r == (match read_nat(s@) {
            Some(n) => if n <= max {
                Some(n as u64)
            } else {
                None::<u64>
            },
            None => None::<u64>,
        }),
{
    if s.len() == 0 {
        return None;
    }
    let mut acc: u64 = 0;
    let mut over: bool = false;
    let mut i: usize = 0;
    assert(s@.take(0) =~= Seq::empty());
    while i < s.len()
        invariant
            i <= s.len(),
            forall|j: int| 0 <= j < i ==> is_digit(#[trigger] s@[j]),
            !over ==> acc == value(s@.take(i as int)),
            !over ==> acc <= max,
            over ==> value(s@.take(i as int)) > max,
        decreases s.len() - i,
    {
        let c: char = s[i];
        if !('0' <= c && c <= '9') {
            return None;
        }
        let d: u64 = (c as u32 - '0' as u32) as u64;
        assert(s@.take(i + 1).drop_last() =~= s@.take(i as int));
        if !over {
            let next: u128 = acc as u128 * 10 + d as u128;
            if next > max as u128 {
                over = true;
            } else {
                acc = next as u64;
            }
        }
        i = i + 1;
    }
    assert(s@.take(i as int) =~= s@);
    if over {
        None
    } else {
        Some(acc)
    }
}

/// The numeral that `s` is, where it fits.
pub fn parse_i64(s: &[char]) -> (r: Option<i64>)
    ensures
        r == read_i64(s@),
{
    if s.len() > 0 && s[0] == '-' {
        match digits_upto(tail(s, 1), 0x8000_0000_0000_0000) {
            Some(n) => Some((-(n as i128)) as i64),
            None => None,
        }
    } else {
        let body = if s.len() > 0 && s[0] == '+' {
            tail(s, 1)
        } else {
            s
        };
        match digits_upto(body, 0x7fff_ffff_ffff_ffff) {
            Some(n) => Some(n as i64),
            None => None,
        }
    }
}

/// The numeral that `s` is, where it fits.
pub fn parse_u64(s: &[char]) -> (r: Option<u64>)
    ensures
        r == read_u64(s@),
{
    if s.len() > 0 && s[0] == '-' {
        None
    } else {
        let body = if s.len() > 0 && s[0] == '+' {
            tail(s, 1)
        } else {
            s
        };
        digits_upto(body, u64::MAX)
    }
}

/// The numeral that `s` is, where it fits.
pub fn parse_usize(s: &[char]) -> (r: Option<usize>)
    ensures
        r == read_usize(s@),
{
    if s.len() > 0 && s[0] == '-' {
        None
    } else {
        let body = if s.len() > 0 && s[0] == '+' {
            tail(s, 1)
        } else {
            s
        };
        match digits_upto(body, usize::MAX as u64) {
            Some(n) => Some(n as usize),
            None => None,
        }
    }
}

} // verus!
