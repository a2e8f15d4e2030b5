//! Base64 with the standard alphabet: padded when written, padding optional
//! when read.

use vstd::prelude::*;

use crate::text::{chars_of, string_of, trim, trimmed};

verus! {

/// The digit of a six-bit value.
pub open spec fn digit64(v: int) -> char {
    if v < 26 {
        (0x41 + v) as char
    } else if v < 52 {
        (0x61 + v - 26) as char
    } else if v < 62 {
        (0x30 + v - 52) as char
    } else if v == 62 {
        '+'
    } else {
        '/'
    }
}

/// The six-bit value of a digit's byte.
pub open spec fn sextet(b: u8) -> Option<int> {
    if 0x41 <= b <= 0x5a {
        Some(b - 0x41)
    } else if 0x61 <= b <= 0x7a {
        Some(b - 0x61 + 26)
    } else if 0x30 <= b <= 0x39 {
        Some(b - 0x30 + 52)
    } else if b == 0x2b {
        Some(62)
    } else if b == 0x2f {
        Some(63)
    } else {
        None
    }
}

/// Three bytes as one number.
pub open spec fn triple(b0: int, b1: int, b2: int) -> int {
    b0 * 65536 + b1 * 256 + b2
}

/// Bytes in base64: four digits for each three bytes, and the last one or two
/// padded.
pub open spec fn encoded(data: Seq<u8>) -> Seq<char>
    decreases data.len(),
{
    if data.len() == 0 {
        Seq::empty()
    } else if data.len() == 1 {
        let n = triple(data[0] as int, 0, 0);
        seq![digit64(n / 262144), digit64(n / 4096 % 64), '=', '=']
    } else if data.len() == 2 {
        let n = triple(data[0] as int, data[1] as int, 0);
        seq![digit64(n / 262144), digit64(n / 4096 % 64), digit64(n / 64 % 64), '=']
    } else {
        let n = triple(data[0] as int, data[1] as int, data[2] as int);
        seq![digit64(n / 262144), digit64(n / 4096 % 64), digit64(n / 64 % 64), digit64(n % 64)] + encoded(data.skip(3))
    }
}

/// Bytes without padding bytes.
pub open spec fn unpadded(b: Seq<u8>) -> Seq<u8>
    decreases b.len(),
{
    if b.len() == 0 {
        Seq::empty()
    } else if b[0] == 0x3d {
        unpadded(b.drop_first())
    } else {
        seq![b[0]] + unpadded(b.drop_first())
    }
}

/// The first byte that is no digit.
pub open spec fn first_invalid(b: Seq<u8>) -> Option<u8>
    decreases b.len(),
{
    if b.len() == 0 {
        None
    } else if sextet(b[0]) is None {
        Some(b[0])
    } else {
        first_invalid(b.drop_first())
    }
}

/// The value of the `i`-th digit, zero where there is none.
pub open spec fn value_at(b: Seq<u8>, i: int) -> int {
    if i < b.len() && sextet(b[i]) is Some {
        sextet(b[i])->0
    } else {
        0
    }
}

/// Up to four digits as one number.
pub open spec fn quad(b: Seq<u8>) -> int {
    value_at(b, 0) * 262144 + value_at(b, 1) * 4096 + value_at(b, 2) * 64 + value_at(b, 3)
}

/// What digits stand for: three bytes for each four, and of the last group one
/// byte for up to two digits, two for three.
pub open spec fn decoded(b: Seq<u8>) -> Seq<u8>
    decreases b.len(),
{
    let n = quad(b);
    if b.len() == 0 {
        Seq::empty()
    } else if b.len() <= 2 {
        seq![(n / 65536) as u8]
    } else if b.len() == 3 {
        seq![(n / 65536) as u8, (n / 256 % 256) as u8]
    } else {
        seq![(n / 65536) as u8, (n / 256 % 256) as u8, (n % 256) as u8] + decoded(b.skip(4))
    }
}

/// The digits of a text: its bytes without the white space around them and
/// without padding.
pub open spec fn digits_of(s: Seq<char>) -> Seq<u8> {
    unpadded(vstd::utf8::encode_utf8(trim(s)))
}

/// A character as `Debug` writes it.
pub uninterp spec fn debug_of(c: char) -> Seq<char>;

/// `format!("{:?}", c)`, that is `Debug` of `char`: the character between
/// single quotes, escaped where it has to be, which depends on it alone.
#[verifier::external_body]
fn debug_char(c: char) -> (r: String)
    ensures
        r@ == debug_of(c),
{
    format!("{:?}", c)
}

fn digit_char(v: u32) -> (c: char)
    requires
        v < 64,
    ensures
        c == digit64(v as int),
{
    let b: u8 = v as u8;
    if v < 26 {
        (0x41 + b) as char
    } else if v < 52 {
        (0x61 + (b - 26)) as char
    } else if v < 62 {
        (0x30 + (b - 52)) as char
    } else if v == 62 {
        '+'
    } else {
        '/'
    }
}

fn val(c: u8) -> (r: Option<u32>)
    ensures
        r is Some == sextet(c) is Some,
        r is Some ==> r->0 == sextet(c)->0 && r->0 < 64,
{
    if 0x41 <= c && c <= 0x5a {
        Some((c - 0x41) as u32)
    } else if 0x61 <= c && c <= 0x7a {
        Some((c - 0x61) as u32 + 26)
    } else if 0x30 <= c && c <= 0x39 {
        Some((c - 0x30) as u32 + 52)
    } else if c == 0x2b {
        Some(62)
    } else if c == 0x2f {
        Some(63)
    } else {
        None
    }
}

/// Writes bytes in base64.
pub fn encode(data: &[u8]) -> (r: String)
    ensures
        r@ == encoded(data@),
{
    let mut out: Vec<char> = Vec::new();
    let mut i: usize = 0;
    let end: usize = data.len();
    assert(data@.skip(0) =~= data@);
    while i < end
        invariant
            i <= end,
            end == data@.len(),
            out@ + encoded(data@.skip(i as int)) == encoded(data@),
        decreases end - i,
    {
        let ghost rest = data@.skip(i as int);
        let ghost before = out@;
        let left: usize = end - i;
        let b0: u32 = data[i] as u32;
        let b1: u32 = if left > 1 {
            data[i + 1] as u32
        } else {
            0
        };
        let b2: u32 = if left > 2 {
            data[i + 2] as u32
        } else {
            0
        };
        let n: u32 = b0 * 65536 + b1 * 256 + b2;
        assert(n == triple(b0 as int, b1 as int, b2 as int));
        let c0: char = digit_char(n / 262144);
        let c1: char = digit_char(n / 4096 % 64);
        out.push(c0);
        out.push(c1);
        if left == 1 {
            out.push('=');
            out.push('=');
            assert(out@ =~= before + encoded(rest));
            assert(data@.skip(end as int) =~= Seq::empty());
            assert(out@ + encoded(data@.skip(end as int)) =~= out@);
            i = end;
        } else if left == 2 {
            out.push(digit_char(n / 64 % 64));
            out.push('=');
            assert(out@ =~= before + encoded(rest));
            assert(data@.skip(end as int) =~= Seq::empty());
            assert(out@ + encoded(data@.skip(end as int)) =~= out@);
            i = end;
        } else {
            out.push(digit_char(n / 64 % 64));
            out.push(digit_char(n % 64));
            assert(rest.skip(3) =~= data@.skip(i + 3));
            assert(out@ + encoded(data@.skip(i + 3)) =~= before + encoded(rest));
            i = i + 3;
        }
    }
    assert(data@.skip(i as int) =~= Seq::empty());
    assert(out@ + encoded(data@.skip(i as int)) =~= out@);
    string_of(out.as_slice())
}

/// The words in which a byte that is no digit is refused.
pub open spec fn refusal(b: u8) -> Seq<char> {
    "invalid base64 byte: "@ + debug_of(b as char)
}

/// Reads base64. White space around it and padding do not count; the first
/// byte that is no digit refuses it.
pub fn decode(s: &str) -> (r: Result<Vec<u8>, String>)
    ensures
        r is Ok <==> first_invalid(digits_of(s@)) is None,
        r is Ok ==> r->Ok_0@ == decoded(digits_of(s@)),
        r is Err ==> r->Err_0@ == refusal(first_invalid(digits_of(s@))->0),
{
    let sc = chars_of(s);
    let t = string_of(trimmed(sc.as_slice()));
    let bytes: &[u8] = t.as_str().as_bytes();
    let mut digits: Vec<u8> = Vec::new();
    let mut i: usize = 0;
    assert(bytes@.skip(0) =~= bytes@);
    assert(digits@ + unpadded(bytes@) =~= unpadded(bytes@));
    while i < bytes.len()
        invariant
            i <= bytes@.len(),
            digits@ + unpadded(bytes@.skip(i as int)) == unpadded(bytes@),
        decreases bytes@.len() - i,
    {
        let ghost before = digits@;
        let ghost rest = bytes@.skip(i as int);
        assert(rest.drop_first() =~= bytes@.skip(i + 1));
        if bytes[i] != 0x3d {
            digits.push(bytes[i]);
            assert(digits@ + unpadded(bytes@.skip(i + 1)) =~= before + unpadded(rest));
        }
        i = i + 1;
    }
    assert(bytes@.skip(i as int) =~= Seq::empty());
    assert(digits@ + unpadded(bytes@.skip(i as int)) =~= digits@);
    assert(digits@ == digits_of(s@));

    let end: usize = digits.len();
    let mut k: usize = 0;
    assert(digits@.skip(0) =~= digits@);
    while k < end
        invariant
            k <= end,
            end == digits@.len(),
            digits@ == digits_of(s@),
            first_invalid(digits@.skip(k as int)) == first_invalid(digits@),
        decreases end - k,
    {
        assert(digits@.skip(k as int).drop_first() =~= digits@.skip(k + 1));
        if val(digits[k]).is_none() {
            let mut m = chars_of("invalid base64 byte: ");
            let d = debug_char(digits[k] as char);
            crate::text::push_text(&mut m, d.as_str());
            return Err(string_of(m.as_slice()));
        }
        k = k + 1;
    }
    assert(digits@.skip(k as int) =~= Seq::empty());

    let mut out: Vec<u8> = Vec::new();
    let mut j: usize = 0;
    assert(out@ + decoded(digits@) =~= decoded(digits@));
    while j < end
        invariant
            j <= end,
            end == digits@.len(),
            out@ + decoded(digits@.skip(j as int)) == decoded(digits@),
        decreases end - j,
    {
        let ghost rest = digits@.skip(j as int);
        let ghost before = out@;
        let left: usize = end - j;
        let v0: u32 = digit_at(&digits, j);
        let v1: u32 = if left > 1 {
            digit_at(&digits, j + 1)
        } else {
            0
        };
        let v2: u32 = if left > 2 {
            digit_at(&digits, j + 2)
        } else {
            0
        };
        let v3: u32 = if left > 3 {
            digit_at(&digits, j + 3)
        } else {
            0
        };
        let n: u32 = v0 * 262144 + v1 * 4096 + v2 * 64 + v3;
        assert(n == quad(rest));
        out.push((n / 65536) as u8);
        if left > 2 {
            out.push((n / 256 % 256) as u8);
        }
        if left > 3 {
            out.push((n % 256) as u8);
            assert(rest.skip(4) =~= digits@.skip(j + 4));
            assert(out@ + decoded(digits@.skip(j + 4)) =~= before + decoded(rest));
            j = j + 4;
        } else {
            assert(out@ =~= before + decoded(rest));
            assert(digits@.skip(end as int) =~= Seq::empty());
            assert(out@ + decoded(digits@.skip(end as int)) =~= out@);
            j = end;
        }
    }
    assert(digits@.skip(j as int) =~= Seq::empty());
    assert(out@ + decoded(digits@.skip(j as int)) =~= out@);
    Ok(out)
}

fn digit_at(digits: &Vec<u8>, i: usize) -> (r: u32)
    requires
        i < digits@.len(),
    ensures
        r == value_at(digits@, i as int),
        r < 64,
{
    match val(digits[i]) {
        Some(v) => v,
        None => 0,
    }
}

// --- reading back what was written ---

/// The digits that bytes are written in, without padding.
spec fn digit_bytes(data: Seq<u8>) -> Seq<u8>
    decreases data.len(),
{
    if data.len() == 0 {
        Seq::empty()
    } else if data.len() == 1 {
        let n = triple(data[0] as int, 0, 0);
        seq![digit64(n / 262144) as u8, digit64(n / 4096 % 64) as u8]
    } else if data.len() == 2 {
        let n = triple(data[0] as int, data[1] as int, 0);
        seq![digit64(n / 262144) as u8, digit64(n / 4096 % 64) as u8, digit64(n / 64 % 64) as u8]
    } else {
        let n = triple(data[0] as int, data[1] as int, data[2] as int);
        seq![
            digit64(n / 262144) as u8,
            digit64(n / 4096 % 64) as u8,
            digit64(n / 64 % 64) as u8,
            digit64(n % 64) as u8,
        ] + digit_bytes(data.skip(3))
    }
}

proof fn lemma_digit(v: int)
    requires
        0 <= v < 64,
    ensures
        sextet(digit64(v) as u8) == Some(v),
        (digit64(v) as u32) < 0x80,
        digit64(v) as u8 != 0x3d,
        !crate::text::is_space(digit64(v)),
        digit64(v) as u8 as u32 == digit64(v) as u32,
{
}

proof fn lemma_triple_parts(b0: int, b1: int, b2: int)
    requires
        0 <= b0 < 256,
        0 <= b1 < 256,
        0 <= b2 < 256,
    ensures
        ({
            let n = triple(b0, b1, b2);
            &&& 0 <= n / 262144 < 64
            &&& 0 <= n / 4096 % 64 < 64
            &&& 0 <= n / 64 % 64 < 64
            &&& 0 <= n % 64 < 64
            &&& (n / 262144) * 262144 + (n / 4096 % 64) * 4096 + (n / 64 % 64) * 64 + n % 64 == n
            &&& n / 65536 == b0
            &&& n / 256 % 256 == b1
            &&& n % 256 == b2
        }),
{
    let n = triple(b0, b1, b2);
    let (h0, l0) = (b0 / 4, b0 % 4);
    let (h1, l1) = (b1 / 16, b1 % 16);
    let (h2, l2) = (b2 / 64, b2 % 64);
    let v1 = l0 * 16 + h1;
    let v2 = l1 * 4 + h2;
    lemma_divides(n, 262144, h0, l0 * 65536 + b1 * 256 + b2);
    lemma_divides(n, 4096, h0 * 64 + v1, l1 * 256 + b2);
    lemma_divides(h0 * 64 + v1, 64, h0, v1);
    lemma_divides(n, 64, h0 * 4096 + v1 * 64 + v2, l2);
    lemma_divides(h0 * 4096 + v1 * 64 + v2, 64, h0 * 64 + v1, v2);
    lemma_divides(n, 65536, b0, b1 * 256 + b2);
    lemma_divides(n, 256, b0 * 256 + b1, b2);
    lemma_divides(b0 * 256 + b1, 256, b0, b1);
}

proof fn lemma_divides(n: int, d: int, q: int, r: int)
    requires
        d > 0,
        0 <= r < d,
        n == q * d + r,
    ensures
        n / d == q,
        n % d == r,
{
    vstd::arithmetic::div_mod::lemma_fundamental_div_mod_converse(n, d, q, r);
}

/// Without the digits that hold only zeros the number is the same.
proof fn lemma_short_parts(b0: int, b1: int)
    requires
        0 <= b0 < 256,
        0 <= b1 < 256,
    ensures
        triple(b0, 0, 0) / 64 % 64 == 0,
        triple(b0, 0, 0) % 64 == 0,
        triple(b0, b1, 0) % 64 == 0,
{
}

proof fn lemma_digits_read_back(data: Seq<u8>)
    ensures
        first_invalid(digit_bytes(data)) is None,
        decoded(digit_bytes(data)) == data,
    decreases data.len(),
{
    let d = digit_bytes(data);
    if data.len() == 0 {
        assert(decoded(d) =~= data);
    } else {
        let b0 = data[0] as int;
        let b1 = if data.len() > 1 {
            data[1] as int
        } else {
            0
        };
        let b2 = if data.len() > 2 {
            data[2] as int
        } else {
            0
        };
        let n = triple(b0, b1, b2);
        lemma_triple_parts(b0, b1, b2);
        lemma_short_parts(b0, b1);
        lemma_digit(n / 262144);
        lemma_digit(n / 4096 % 64);
        lemma_digit(n / 64 % 64);
        lemma_digit(n % 64);
        if data.len() == 1 {
            assert(d.drop_first() =~= seq![d[1]]);
            assert(d.drop_first().drop_first() =~= Seq::empty());
            assert(first_invalid(d.drop_first().drop_first()) is None);
            assert(first_invalid(d.drop_first()) is None);
            assert(quad(d) == n);
            assert(decoded(d) =~= data);
        } else if data.len() == 2 {
            assert(d.drop_first() =~= seq![d[1], d[2]]);
            assert(d.drop_first().drop_first() =~= seq![d[2]]);
            assert(d.drop_first().drop_first().drop_first() =~= Seq::empty());
            assert(first_invalid(d.drop_first().drop_first().drop_first()) is None);
            assert(first_invalid(d.drop_first().drop_first()) is None);
            assert(first_invalid(d.drop_first()) is None);
            assert(quad(d) == n);
            assert(decoded(d) =~= data);
        } else {
            let rest = digit_bytes(data.skip(3));
            lemma_digits_read_back(data.skip(3));
            assert(d.skip(4) =~= rest);
            assert(d.drop_first().drop_first().drop_first().drop_first() =~= rest);
            assert(first_invalid(d.drop_first().drop_first().drop_first()) is None);
            assert(first_invalid(d.drop_first().drop_first()) is None);
            assert(first_invalid(d.drop_first()) is None);
            assert(quad(d) == n);
            assert(seq![data[0], data[1], data[2]] + data.skip(3) =~= data);
            assert(decoded(d) =~= data);
        }
    }
}

/// The bytes of what is written.
spec fn encoded_bytes(data: Seq<u8>) -> Seq<u8> {
    Seq::new(encoded(data).len(), |i: int| encoded(data)[i] as u8)
}

#[verifier::rlimit(40)]
proof fn lemma_encoded_chars(data: Seq<u8>)
    ensures
        vstd::utf8::is_ascii_chars(encoded(data)),
        forall|i: int| 0 <= i < encoded(data).len() ==> !crate::text::is_space(#[trigger] encoded(data)[i]),
        unpadded(encoded_bytes(data)) == digit_bytes(data),
    decreases data.len(),
{
    let e = encoded(data);
    let eb = encoded_bytes(data);
    if data.len() == 0 {
        assert(eb =~= Seq::empty());
        assert(unpadded(eb) =~= digit_bytes(data));
    } else {
        let b0 = data[0] as int;
        let b1 = if data.len() > 1 {
            data[1] as int
        } else {
            0
        };
        let b2 = if data.len() > 2 {
            data[2] as int
        } else {
            0
        };
        let n = triple(b0, b1, b2);
        lemma_triple_parts(b0, b1, b2);
        lemma_digit(n / 262144);
        lemma_digit(n / 4096 % 64);
        lemma_digit(n / 64 % 64);
        lemma_digit(n % 64);
        let t1 = eb.drop_first();
        let t2 = t1.drop_first();
        let t3 = t2.drop_first();
        let t4 = t3.drop_first();
        assert(eb[0] == e[0] as u8 && t1[0] == e[1] as u8 && t2[0] == e[2] as u8 && t3[0] == e[3] as u8);
        if data.len() <= 2 {
            assert(t4 =~= Seq::empty());
            assert(unpadded(t4) =~= Seq::empty());
            assert(t3[0] == 0x3d);
            assert(unpadded(t3) =~= Seq::empty());
            if data.len() == 1 {
                assert(t2[0] == 0x3d);
                assert(unpadded(t2) =~= Seq::empty());
            } else {
                assert(unpadded(t2) =~= seq![e[2] as u8]);
            }
            assert(unpadded(t1) =~= seq![e[1] as u8] + unpadded(t2));
            assert(unpadded(eb) =~= seq![e[0] as u8] + unpadded(t1));
            assert(unpadded(eb) =~= digit_bytes(data));
        } else {
            lemma_encoded_chars(data.skip(3));
            let re = encoded(data.skip(3));
            assert(e.len() == 4 + re.len());
            assert forall|i: int| 0 <= i < e.len() implies '\0' <= #[trigger] e[i] <= '\u{7f}'
                && !crate::text::is_space(e[i]) by {
                if i >= 4 {
                    assert(e[i] == re[i - 4]);
                }
            }
            assert(t4 =~= encoded_bytes(data.skip(3))) by {
                assert forall|i: int| 0 <= i < t4.len() implies t4[i] == re[i] as u8 by {
                    assert(e[i + 4] == re[i]);
                }
            }
            assert(unpadded(t3) =~= seq![e[3] as u8] + unpadded(t4));
            assert(unpadded(t2) =~= seq![e[2] as u8] + unpadded(t3));
            assert(unpadded(t1) =~= seq![e[1] as u8] + unpadded(t2));
            assert(unpadded(eb) =~= digit_bytes(data));
        }
    }
}

/// A text without its padding characters.
pub open spec fn without_padding(s: Seq<char>) -> Seq<char>
    decreases s.len(),
{
    if s.len() == 0 {
        Seq::empty()
    } else if s[0] == '=' {
        without_padding(s.drop_first())
    } else {
        seq![s[0]] + without_padding(s.drop_first())
    }
}

spec fn bytes_of(s: Seq<char>) -> Seq<u8> {
    Seq::new(s.len(), |i: int| s[i] as u8)
}

/// Whether a text is ASCII without white space.
spec fn is_solid(s: Seq<char>) -> bool {
    forall|i: int| 0 <= i < s.len() ==> '\0' <= #[trigger] s[i] <= '\u{7f}' && !crate::text::is_space(s[i])
}

proof fn lemma_without_padding(s: Seq<char>)
    requires
        is_solid(s),
    ensures
        is_solid(without_padding(s)),
        bytes_of(without_padding(s)) == unpadded(bytes_of(s)),
        unpadded(bytes_of(without_padding(s))) == unpadded(bytes_of(s)),
    decreases s.len(),
{
    if s.len() == 0 {
        assert(bytes_of(without_padding(s)) =~= unpadded(bytes_of(s)));
        assert(unpadded(bytes_of(without_padding(s))) =~= unpadded(bytes_of(s)));
    } else {
        let t = s.drop_first();
        assert(is_solid(t)) by {
            assert forall|i: int| 0 <= i < t.len() implies '\0' <= #[trigger] t[i] <= '\u{7f}'
                && !crate::text::is_space(t[i]) by {
                assert(t[i] == s[i + 1]);
            }
        }
        lemma_without_padding(t);
        assert(bytes_of(s).drop_first() =~= bytes_of(t));
        let c = s[0];
        let w = without_padding(s);
        let wt = without_padding(t);
        if c != '=' {
            assert(c as u8 != 0x3d);
            assert forall|i: int| 0 <= i < w.len() implies '\0' <= #[trigger] w[i] <= '\u{7f}'
                && !crate::text::is_space(w[i]) by {
                if i > 0 {
                    assert(w[i] == wt[i - 1]);
                }
            }
            assert(bytes_of(w) =~= seq![c as u8] + bytes_of(wt));
            assert(bytes_of(w).drop_first() =~= bytes_of(wt));
            assert(unpadded(bytes_of(w)) =~= seq![c as u8] + unpadded(bytes_of(wt)));
        }
    }
}

/// Padding is optional: what was written reads back as the same bytes when its
/// padding is left out.
pub proof fn law_decode_needs_no_padding(data: Seq<u8>)
    ensures
        first_invalid(digits_of(without_padding(encoded(data)))) is None,
        decoded(digits_of(without_padding(encoded(data)))) == data,
{
    let e = encoded(data);
    let w = without_padding(e);
    lemma_encoded_chars(data);
    assert(is_solid(e));
    lemma_without_padding(e);
    crate::code_index::scope::lemma_trim_noop(w);
    vstd::utf8::is_ascii_chars_encode_utf8(w);
    assert(vstd::utf8::encode_utf8(w) =~= bytes_of(w));
    assert(bytes_of(e) =~= encoded_bytes(data));
    lemma_digits_read_back(data);
}

/// Reading back what was written gives the bytes that were written, whatever
/// their number.
pub proof fn law_decode_undoes_encode(data: Seq<u8>)
    ensures
        first_invalid(digits_of(encoded(data))) is None,
        decoded(digits_of(encoded(data))) == data,
{
    let e = encoded(data);
    lemma_encoded_chars(data);
    crate::code_index::scope::lemma_trim_noop(e);
    vstd::utf8::is_ascii_chars_encode_utf8(e);
    assert(vstd::utf8::encode_utf8(e) =~= encoded_bytes(data));
    lemma_digits_read_back(data);
}

} // verus!
