//! Laws of what the rest is built on: order, numerals, lines, white space and
//! base64.

use vstd::prelude::*;

use crate::b64::{digit64, encoded, sextet, triple};
use crate::export::is_one_line;
use crate::improve::targets::{is_signal, signal_predicates, Targets};
use crate::laws::text::{all_space, is_bare, law_trim_of_padded};
use crate::letters::lowers_to;
use crate::numeral::{all_digits, dec, is_digit, law_numeral_reads_back, lemma_dec_nat, read_i64, read_int, read_usize};
use crate::order::before;
use crate::text::{find_char, is_space, lemma_find_char, lines};
use crate::width::{chars_in, date};

verus! {

// --- order ---

/// Texts are ordered by their first difference: what they begin with alike
/// does not matter, then the smaller character comes first, and a text comes
/// before what goes on from it.
pub proof fn law_order_is_by_the_first_difference(p: Seq<char>, a: Seq<char>, b: Seq<char>)
    ensures
        before(p + a, p + b) == before(a, b),
        a.len() > 0 && b.len() > 0 && a[0] < b[0] ==> before(a, b) && !before(b, a),
        b.len() > 0 ==> before(p, p + b) && !before(p + b, p),
    decreases p.len(),
{
    let none: Seq<char> = Seq::empty();
    if p.len() > 0 {
        let q = p.drop_first();
        law_order_is_by_the_first_difference(q, a, b);
        assert((p + a).drop_first() =~= q + a);
        assert((p + b).drop_first() =~= q + b);
    } else {
        assert(p + a =~= a);
        assert(p + b =~= b);
    }
}

// --- numerals ---

/// A number that was written reads back in the type that it is of, and a text
/// with another character than digits and one sign is no number.
pub proof fn law_numbers_read_back(n: i64, m: usize, s: Seq<char>, i: int)
    ensures
        read_i64(dec(n as int)) == Some(n),
        read_usize(dec(m as int)) == Some(m),
        0 < i < s.len() && !('0' <= s[i] <= '9') ==> read_int(s) is None,
        s.len() == 0 ==> read_int(s) is None,
        s.len() > 0 && !('0' <= s[0] <= '9') && s[0] != '-' && s[0] != '+' ==> read_int(s) is None,
{
    law_numeral_reads_back(n as int);
    law_numeral_reads_back(m as int);
    lemma_dec_nat(m as nat);
    assert(is_digit(dec(m as int)[0]));
    if 0 < i < s.len() && !('0' <= s[i] <= '9') {
        assert(s.skip(1)[i - 1] == s[i]);
        assert(!is_digit(s[i]));
        assert(!all_digits(s)) by {
            if all_digits(s) {
                assert(is_digit(s[i]));
            }
        }
        assert(!all_digits(s.skip(1))) by {
            if all_digits(s.skip(1)) {
                assert(is_digit(s.skip(1)[i - 1]));
            }
        }
    }
    if s.len() > 0 && !('0' <= s[0] <= '9') {
        assert(!all_digits(s)) by {
            if all_digits(s) {
                assert(is_digit(s[0]));
            }
        }
    }
}

// --- lines and white space ---

/// A line ends at its line feed, and with it goes the carriage return before.
pub proof fn law_line_ends(l: Seq<char>, rest: Seq<char>)
    requires
        is_one_line(l),
    ensures
        lines(l + "\n"@ + rest) == seq![l] + lines(rest),
        lines(l + "\r\n"@ + rest) == seq![l] + lines(rest),
{
    reveal_strlit("\n");
    reveal_strlit("\r\n");
    let n = l.len() as int;
    let a = l + "\n"@ + rest;
    let b = l + "\r\n"@ + rest;
    lemma_find_char(a, '\n');
    lemma_find_char(b, '\n');
    assert forall|j: int| 0 <= j < n implies a[j] != '\n' && b[j] != '\n' by {
        assert(a[j] == l[j] && b[j] == l[j]);
        assert(l.contains(l[j]));
    }
    assert(a[n] == '\n');
    assert(b[n] == '\r' && b[n + 1] == '\n');
    assert(find_char(a, '\n') == n);
    assert(find_char(b, '\n') == n + 1);
    assert(a.take(n) =~= l);
    assert(b.take(n + 1).drop_last() =~= l);
    assert(a.skip(n + 1) =~= rest);
    assert(b.skip(n + 2) =~= rest);
}

/// Of the ASCII characters the space and those from the tab to the carriage
/// return are white space, and no others.
pub proof fn law_ascii_white_space(c: char)
    requires
        (c as u32) < 0x80,
    ensures
        is_space(c) <==> c == ' ' || '\t' <= c <= '\r',
{
}

/// The date of a time stamp is its first ten characters.
pub proof fn law_date_of_a_stamp(d: Seq<char>, rest: Seq<char>)
    requires
        d.len() == 10,
        forall|i: int| 0 <= i < 10 ==> (#[trigger] d[i] as u32) < 0x80,
    ensures
        date(d + rest) == d,
{
    lemma_ascii_chars_in(d, rest);
    assert((d + rest).take(10) =~= d);
}

proof fn lemma_ascii_chars_in(d: Seq<char>, rest: Seq<char>)
    requires
        forall|i: int| 0 <= i < d.len() ==> (#[trigger] d[i] as u32) < 0x80,
    ensures
        chars_in(d + rest, d.len() as int) == Some(d.len() as int),
    decreases d.len(),
{
    if d.len() > 0 {
        let e = d.drop_first();
        assert((d + rest)[0] == d[0]);
        assert((d + rest).drop_first() =~= e + rest);
        assert forall|i: int| 0 <= i < e.len() implies (#[trigger] e[i] as u32) < 0x80 by {
            assert(e[i] == d[i + 1]);
        }
        lemma_ascii_chars_in(e, rest);
    }
}

// --- signals ---

/// The predicates that are a signal are the eight known ones, in any case and
/// with white space around them.
pub proof fn law_signals(a: Seq<char>, t: Seq<char>, b: Seq<char>)
    requires
        all_space(a),
        all_space(b),
        is_bare(t),
    ensures
        is_signal(a + t + b) <==> lowers_to(t, "prefers"@) || lowers_to(t, "rejects"@) || lowers_to(t, "values"@) || lowers_to(
            t,
            "frustrated-by"@,
        ) || lowers_to(t, "wants"@) || lowers_to(t, "avoids"@) || lowers_to(t, "dislikes"@) || lowers_to(t, "corrects"@),
{
    law_trim_of_padded(a, t, b);
    let w = signal_predicates();
    assert(w[0] == "prefers"@ && w[1] == "rejects"@ && w[2] == "values"@ && w[3] == "frustrated-by"@ && w[4] == "wants"@ && w[5]
        == "avoids"@ && w[6] == "dislikes"@ && w[7] == "corrects"@);
}

/// A run may edit in each of its targets, and write in the two directories.
pub proof fn law_tools_reach_every_target(t: Targets)
    ensures
        t.tools().contains("Edit("@ + t.skills_dir@ + "/**)"@),
        t.tools().contains("Write("@ + t.skills_dir@ + "/**)"@),
        t.tools().contains("Edit("@ + t.claude_md@ + ")"@),
        t.tools().contains("Edit("@ + t.settings_json@ + ")"@),
        t.tools().contains("Edit("@ + t.hooks_dir@ + "/**)"@),
        t.tools().contains("Write("@ + t.hooks_dir@ + "/**)"@),
        t.tools().contains("Read"@),
{
    let s = t.tools();
    assert(s.contains(s[0]));
    assert(s.contains(s[3]) && s.contains(s[4]) && s.contains(s[5]) && s.contains(s[6]) && s.contains(s[7]) && s.contains(s[8]));
}

// --- base64 ---

/// The digits are the capitals, the small letters, the decimal digits, the plus
/// sign and the slash, in this order.
pub proof fn law_base64_alphabet(v: int)
    ensures
        0 <= v < 26 ==> digit64(v) as int == 'A' as int + v,
        26 <= v < 52 ==> digit64(v) as int == 'a' as int + v - 26,
        52 <= v < 62 ==> digit64(v) as int == '0' as int + v - 52,
        digit64(62) == '+',
        digit64(63) == '/',
        0 <= v < 64 ==> sextet(digit64(v) as u8) == Some(v),
{
}

proof fn lemma_six_bits(a: int, b: int, c: int)
    requires
        0 <= a < 256,
        0 <= b < 256,
        0 <= c < 256,
    ensures
        triple(a, b, c) / 262144 == a / 4,
        triple(a, b, c) / 4096 % 64 == a % 4 * 16 + b / 16,
        triple(a, b, c) / 64 % 64 == b % 16 * 4 + c / 64,
        triple(a, b, c) % 64 == c % 64,
{
    let n = triple(a, b, c);
    let q = a / 4;
    let r = a % 4 * 16 + b / 16;
    let s = b % 16 * 4 + c / 64;
    let t = c % 64;
    assert(n == q * 262144 + r * 4096 + s * 64 + t);
    assert(n / 4096 == q * 64 + r);
    assert(n / 64 == (q * 64 + r) * 64 + s);
}

/// Each three bytes are written as four digits of six bits, the first bits
/// first; one or two bytes that are left are filled up with equals signs.
pub proof fn law_base64_groups(data: Seq<u8>)
    ensures
        data.len() == 0 ==> encoded(data).len() == 0,
        data.len() == 1 ==> encoded(data).len() == 4 && encoded(data)[2] == '=' && encoded(data)[3] == '=' && encoded(data)[0]
            == digit64(data[0] as int / 4) && encoded(data)[1] == digit64(data[0] as int % 4 * 16),
        data.len() == 2 ==> encoded(data).len() == 4 && encoded(data)[3] == '=' && encoded(data)[0] == digit64(
            data[0] as int / 4,
        ) && encoded(data)[1] == digit64(data[0] as int % 4 * 16 + data[1] as int / 16) && encoded(data)[2] == digit64(
            data[1] as int % 16 * 4,
        ),
        data.len() >= 3 ==> encoded(data).skip(4) == encoded(data.skip(3)) && encoded(data)[0] == digit64(data[0] as int / 4)
            && encoded(data)[1] == digit64(data[0] as int % 4 * 16 + data[1] as int / 16) && encoded(data)[2] == digit64(
            data[1] as int % 16 * 4 + data[2] as int / 64,
        ) && encoded(data)[3] == digit64(data[2] as int % 64),
{
    if data.len() == 1 {
        lemma_six_bits(data[0] as int, 0, 0);
    } else if data.len() == 2 {
        lemma_six_bits(data[0] as int, data[1] as int, 0);
    } else if data.len() >= 3 {
        lemma_six_bits(data[0] as int, data[1] as int, data[2] as int);
        assert(encoded(data).skip(4) =~= encoded(data.skip(3)));
    }
}

} // verus!
