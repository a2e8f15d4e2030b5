//! Laws of the secret patterns: what counts as a secret, said of the bytes and
//! the paths themselves.

use vstd::prelude::*;

use crate::code_index::secrets::{
    bytes_at, component_label, content_label, forty_key_bytes, path_label, private_key_at, run, secret_label,
    small_bytes_at, Class, Marker,
};
use crate::laws::changes::is_slashless;
use crate::letters::ascii_lower_all;
use crate::text::{contains, ends_with, find_char, lemma_find_char, occurs_at, split, starts_with};

verus! {

// --- paths ---

proof fn lemma_component(comps: Seq<Seq<char>>)
    ensures
        component_label(comps) is Some <==> exists|i: int|
            0 <= i < comps.len() && (contains(#[trigger] comps[i], "credentials"@) || contains(comps[i], "secret"@)),
    decreases comps.len(),
{
    if comps.len() > 0 {
        let d = comps.drop_first();
        lemma_component(d);
        if exists|i: int|
            0 <= i < comps.len() && (contains(#[trigger] comps[i], "credentials"@) || contains(comps[i], "secret"@)) {
            let i = choose|i: int|
                0 <= i < comps.len() && (contains(#[trigger] comps[i], "credentials"@) || contains(comps[i], "secret"@));
            if i > 0 {
                assert(d[i - 1] == comps[i]);
            }
        }
        if component_label(d) is Some {
            let i = choose|i: int|
                0 <= i < d.len() && (contains(#[trigger] d[i], "credentials"@) || contains(d[i], "secret"@));
            assert(comps[i + 1] == d[i]);
        }
    }
}

/// A text without a slash stands in a path where it stands in one of the
/// path's components.
proof fn lemma_in_some_component(path: Seq<char>, w: Seq<char>)
    requires
        w.len() > 0,
        is_slashless(w),
    ensures
        contains(path, w) <==> exists|i: int| 0 <= i < split(path, '/').len() && contains(#[trigger] split(path, '/')[i], w),
    decreases path.len(),
{
    let c = split(path, '/');
    lemma_find_char(path, '/');
    let k = find_char(path, '/');
    if k < path.len() {
        let a = path.take(k);
        let rest = path.skip(k + 1);
        let d = split(rest, '/');
        lemma_in_some_component(rest, w);
        assert(c[0] == a);
        assert forall|i: int| 0 <= i < d.len() implies c[i + 1] == #[trigger] d[i] by {}
        if contains(path, w) {
            let i = choose|i: int| occurs_at(path, w, i);
            if i + w.len() <= k {
                assert(a.subrange(i, i + w.len()) =~= path.subrange(i, i + w.len()));
                assert(occurs_at(a, w, i));
                assert(contains(c[0], w));
            } else if i > k {
                assert(rest.subrange(i - k - 1, i - k - 1 + w.len()) =~= path.subrange(i, i + w.len()));
                assert(occurs_at(rest, w, i - k - 1));
                let j = choose|j: int| 0 <= j < d.len() && contains(#[trigger] d[j], w);
                assert(contains(c[j + 1], w));
            } else {
                assert(path.subrange(i, i + w.len())[k - i] == path[k]);
                assert(w.contains(w[k - i]));
            }
        }
        if exists|i: int| 0 <= i < c.len() && contains(#[trigger] c[i], w) {
            let i = choose|i: int| 0 <= i < c.len() && contains(#[trigger] c[i], w);
            if i == 0 {
                let j = choose|j: int| occurs_at(a, w, j);
                assert(path.subrange(j, j + w.len()) =~= a.subrange(j, j + w.len()));
                assert(occurs_at(path, w, j));
            } else {
                assert(contains(d[i - 1], w));
                let j = choose|j: int| occurs_at(rest, w, j);
                assert(path.subrange(j + k + 1, j + k + 1 + w.len()) =~= rest.subrange(j, j + w.len()));
                assert(occurs_at(path, w, j + k + 1));
            }
        }
    } else {
        assert(c =~= seq![path]);
        assert(c[0] == path);
    }
}

pub proof fn lemma_last_component(d: Seq<char>, base: Seq<char>)
    requires
        is_slashless(base),
    ensures
        split(base, '/').last() == base,
        split(d + "/"@ + base, '/').last() == base,
    decreases d.len(),
{
    reveal_strlit("/");
    lemma_find_char(base, '/');
    if find_char(base, '/') < base.len() {
        assert(base.contains(base[find_char(base, '/')]));
    }
    let p = d + "/"@ + base;
    lemma_find_char(p, '/');
    let k = find_char(p, '/');
    assert(p[d.len() as int] == '/');
    assert(k <= d.len());
    if k == d.len() {
        assert(p.skip(k + 1) =~= base);
    } else {
        let e = d.skip(k + 1);
        assert(p.skip(k + 1) =~= e + "/"@ + base);
        lemma_last_component(e, base);
        crate::code_index::secrets::lemma_split_nonempty(p.skip(k + 1), '/');
    }
}

/// A path gives a secret away by the name of its file, or by the words
/// "credentials" or "secret" anywhere in it, in any case; else it does not.
pub proof fn law_secret_paths(path: Seq<char>, d: Seq<char>, base: Seq<char>)
    requires
        is_slashless(base),
        ascii_lower_all(path) == base || ascii_lower_all(path) == d + "/"@ + base,
    ensures
        path_label(path) is Some <==> {
            ||| base == ".env"@
            ||| starts_with(base, ".env."@)
            ||| ends_with(base, ".pem"@)
            ||| ends_with(base, ".key"@)
            ||| ends_with(base, ".p12"@)
            ||| ends_with(base, ".pfx"@)
            ||| ends_with(base, ".kdbx"@)
            ||| ends_with(base, ".keystore"@)
            ||| starts_with(base, "id_rsa"@)
            ||| starts_with(base, "id_ed25519"@)
            ||| contains(ascii_lower_all(path), "credentials"@)
            ||| contains(ascii_lower_all(path), "secret"@)
        },
{
    let l = ascii_lower_all(path);
    let c = split(l, '/');
    lemma_last_component(d, base);
    lemma_component(c);
    reveal_strlit("credentials");
    reveal_strlit("secret");
    lemma_in_some_component(l, "credentials"@);
    lemma_in_some_component(l, "secret"@);
    if component_label(c) is Some {
        let i = choose|i: int| 0 <= i < c.len() && (contains(#[trigger] c[i], "credentials"@) || contains(c[i], "secret"@));
        assert(contains(l, "credentials"@) || contains(l, "secret"@));
    }
}

/// A file carries a secret where its path or its text does, and only there.
pub proof fn law_path_or_text_gives_away(path: Seq<char>, text: Seq<char>)
    ensures
        secret_label(path, text) is Some <==> path_label(path) is Some || content_label(text) is Some,
        path_label(path) is Some ==> secret_label(path, text) == path_label(path),
        path_label(path) is None ==> secret_label(path, text) == content_label(text),
{
}

/// A text carries a secret where its bytes hold one of the nine patterns.
pub proof fn law_any_pattern_gives_away(text: Seq<char>)
    ensures
        ({
            let b = vstd::utf8::encode_utf8(text);
            content_label(text) is Some <==> {
                ||| Marker::PrivateKey.in_bytes(b)
                ||| Marker::GithubToken.in_bytes(b)
                ||| Marker::SkApiKey.in_bytes(b)
                ||| Marker::SlackToken.in_bytes(b)
                ||| Marker::AwsAccessKey.in_bytes(b)
                ||| Marker::GoogleApiKey.in_bytes(b)
                ||| Marker::Jwt.in_bytes(b)
                ||| Marker::AwsSecretKey.in_bytes(b)
                ||| Marker::Password.in_bytes(b)
            }
        }),
{
}

// --- bytes ---

/// Whether a byte is an ASCII letter or digit.
pub open spec fn letter_or_digit(c: u8) -> bool {
    48 <= c <= 57 || 65 <= c <= 90 || 97 <= c <= 122
}

/// Whether a byte can be part of a word: a letter, a digit or an underscore.
pub open spec fn word_byte(c: u8) -> bool {
    letter_or_digit(c) || c == 95
}

/// Whether a byte can be part of a key: a word byte or a dash.
pub open spec fn key_byte(c: u8) -> bool {
    word_byte(c) || c == 45
}

/// Whether `n` bytes from `i` on are all of a kind.
pub open spec fn all_of(b: Seq<u8>, i: int, n: int, kind: spec_fn(u8) -> bool) -> bool {
    0 <= i && i + n <= b.len() && forall|k: int| i <= k < i + n ==> kind(#[trigger] b[k])
}

/// Whether the text stands in the bytes at `i`.
pub open spec fn stands(b: Seq<u8>, p: Seq<char>, i: int) -> bool {
    0 <= i && i + p.len() <= b.len() && forall|j: int| 0 <= j < p.len() ==> #[trigger] p[j] as u32 == b[i + j] as u32
}

/// Whether the text stands in the bytes at `i` and begins a word there.
pub open spec fn begins_word(b: Seq<u8>, p: Seq<char>, i: int) -> bool {
    stands(b, p, i) && (i == 0 || !word_byte(b[i - 1]))
}

proof fn lemma_run(b: Seq<u8>, from: int, class: Class, n: int)
    requires
        0 <= from,
        0 <= n,
    ensures
        run(b, from, class) >= n <==> n == 0 || all_of(b, from, n, |c: u8| class.has(c)),
        run(b, from, class) >= 0,
    decreases n,
{
    lemma_run_nonneg(b, from, class);
    let kind = |c: u8| class.has(c);
    if n > 0 {
        if from < b.len() && class.has(b[from]) {
            lemma_run(b, from + 1, class, n - 1);
            if all_of(b, from, n, kind) {
                assert forall|k: int| from + 1 <= k < from + n implies kind(#[trigger] b[k]) by {}
                if n > 1 {
                    assert(all_of(b, from + 1, n - 1, kind));
                }
            }
            if n == 1 {
                assert(all_of(b, from, n, kind));
            } else if all_of(b, from + 1, n - 1, kind) {
                assert forall|k: int| from <= k < from + n implies kind(#[trigger] b[k]) by {
                    if k == from {
                        assert(class.has(b[from]));
                    }
                }
            }
        } else {
            if all_of(b, from, n, kind) {
                assert(kind(b[from]));
            }
        }
    }
}

proof fn lemma_run_nonneg(b: Seq<u8>, from: int, class: Class)
    ensures
        run(b, from, class) >= 0,
    decreases b.len() - from,
{
    if 0 <= from < b.len() && class.has(b[from]) {
        lemma_run_nonneg(b, from + 1, class);
    }
}

proof fn lemma_same_kind(b: Seq<u8>, i: int, n: int, p: spec_fn(u8) -> bool, q: spec_fn(u8) -> bool)
    requires
        forall|c: u8| #[trigger] p(c) == q(c),
    ensures
        all_of(b, i, n, p) == all_of(b, i, n, q),
{
    if all_of(b, i, n, p) {
        assert forall|k: int| i <= k < i + n implies q(#[trigger] b[k]) by {
            assert(p(b[k]) == q(b[k]));
        }
    }
    if all_of(b, i, n, q) {
        assert forall|k: int| i <= k < i + n implies p(#[trigger] b[k]) by {
            assert(p(b[k]) == q(b[k]));
        }
    }
}

/// What a run of bytes of a class is, in words of the bytes.
proof fn lemma_long_run(b: Seq<u8>, from: int, n: int)
    requires
        0 <= from,
        0 < n,
    ensures
        run(b, from, Class::Token) >= n <==> all_of(b, from, n, |c: u8| word_byte(c)),
        run(b, from, Class::TokenDash) >= n <==> all_of(b, from, n, |c: u8| key_byte(c)),
        run(b, from, Class::Alnum) >= n <==> all_of(b, from, n, |c: u8| letter_or_digit(c)),
        run(b, from, Class::UpperDigit) >= n <==> all_of(b, from, n, |c: u8| 48 <= c <= 57 || 65 <= c <= 90),
{
    lemma_run(b, from, Class::Token, n);
    lemma_run(b, from, Class::TokenDash, n);
    lemma_run(b, from, Class::Alnum, n);
    lemma_run(b, from, Class::UpperDigit, n);
    lemma_same_kind(b, from, n, |c: u8| Class::Token.has(c), |c: u8| word_byte(c));
    lemma_same_kind(b, from, n, |c: u8| Class::TokenDash.has(c), |c: u8| key_byte(c));
    lemma_same_kind(b, from, n, |c: u8| Class::Alnum.has(c), |c: u8| letter_or_digit(c));
    lemma_same_kind(b, from, n, |c: u8| Class::UpperDigit.has(c), |c: u8| 48 <= c <= 57 || 65 <= c <= 90);
}

/// A GitHub token is one of its three beginnings, at the start of a word, and
/// twenty word bytes.
pub proof fn law_github_tokens(b: Seq<u8>, i: int)
    requires
        0 <= i,
    ensures
        Marker::GithubToken.begins_at(b, i) <==> {
            ||| begins_word(b, "ghp_"@, i) && all_of(b, i + 4, 20, |c: u8| word_byte(c))
            ||| begins_word(b, "gho_"@, i) && all_of(b, i + 4, 20, |c: u8| word_byte(c))
            ||| begins_word(b, "github_pat_"@, i) && all_of(b, i + 11, 20, |c: u8| word_byte(c))
        },
{
    lemma_long_run(b, i + 4, 20);
    lemma_long_run(b, i + 11, 20);
}

/// An API key is `sk-` at the start of a word and twenty letters and digits,
/// or `sk-ant-` or `sk-proj-` and twenty key bytes.
pub proof fn law_api_keys(b: Seq<u8>, i: int)
    requires
        0 <= i,
    ensures
        Marker::SkApiKey.begins_at(b, i) <==> begins_word(b, "sk-"@, i) && {
            ||| all_of(b, i + 3, 20, |c: u8| letter_or_digit(c))
            ||| stands(b, "ant-"@, i + 3) && all_of(b, i + 7, 20, |c: u8| key_byte(c))
            ||| stands(b, "proj-"@, i + 3) && all_of(b, i + 8, 20, |c: u8| key_byte(c))
        },
{
    lemma_long_run(b, i + 3, 20);
    lemma_long_run(b, i + 7, 20);
    lemma_long_run(b, i + 8, 20);
}

/// A Slack token is one of its five beginnings, at the start of a word, and
/// ten key bytes.
pub proof fn law_slack_tokens(b: Seq<u8>, i: int)
    requires
        0 <= i,
    ensures
        Marker::SlackToken.begins_at(b, i) <==> (begins_word(b, "xoxb-"@, i) || begins_word(b, "xoxa-"@, i) || begins_word(
            b,
            "xoxp-"@,
            i,
        ) || begins_word(b, "xoxr-"@, i) || begins_word(b, "xoxs-"@, i)) && all_of(b, i + 5, 10, |c: u8| key_byte(c)),
{
    lemma_long_run(b, i + 5, 10);
}

/// An AWS access key is `AKIA` at the start of a word, sixteen digits and
/// capitals, and no word byte behind them.
pub proof fn law_aws_access_keys(b: Seq<u8>, i: int)
    requires
        0 <= i,
    ensures
        Marker::AwsAccessKey.begins_at(b, i) <==> begins_word(b, "AKIA"@, i) && all_of(
            b,
            i + 4,
            16,
            |c: u8| 48 <= c <= 57 || 65 <= c <= 90,
        ) && !(i + 20 < b.len() && word_byte(b[i + 20])),
{
    lemma_long_run(b, i + 4, 16);
    lemma_long_run(b, i + 4, 17);
    let caps = |c: u8| 48 <= c <= 57 || 65 <= c <= 90;
    if all_of(b, i + 4, 17, caps) {
        assert(caps(b[i + 20]));
    }
}

/// A Google API key is `AIza` at the start of a word and thirty-five key bytes.
pub proof fn law_google_keys(b: Seq<u8>, i: int)
    requires
        0 <= i,
    ensures
        Marker::GoogleApiKey.begins_at(b, i) <==> begins_word(b, "AIza"@, i) && all_of(b, i + 4, 35, |c: u8| key_byte(c)),
{
    lemma_long_run(b, i + 4, 35);
}

/// A private key is its opening line: what it begins with and, on the same
/// line, what it ends with.
pub proof fn law_private_keys(b: Seq<u8>, i: int)
    requires
        0 <= i,
    ensures
        Marker::PrivateKey.begins_at(b, i) <==> stands(b, "-----BEGIN"@, i) && exists|j: int|
            i <= j && #[trigger] stands(b, "PRIVATE KEY-----"@, j) && forall|k: int| i <= k < j ==> #[trigger] b[k] != 10,
{
    if private_key_at(b, i) {
        let j = choose|j: int|
            i <= j && #[trigger] bytes_at(b, "PRIVATE KEY-----"@, j) && crate::code_index::secrets::same_line(b, i, j);
        assert(stands(b, "PRIVATE KEY-----"@, j));
    }
    if stands(b, "-----BEGIN"@, i) && exists|j: int|
        i <= j && #[trigger] stands(b, "PRIVATE KEY-----"@, j) && forall|k: int| i <= k < j ==> #[trigger] b[k] != 10 {
        let j = choose|j: int|
            i <= j && #[trigger] stands(b, "PRIVATE KEY-----"@, j) && forall|k: int| i <= k < j ==> #[trigger] b[k] != 10;
        assert(bytes_at(b, "PRIVATE KEY-----"@, j));
    }
}

/// A JSON web token is found: two parts that begin with `eyJ`, each with four
/// or more key bytes behind, and a dot behind each.
pub proof fn law_web_tokens(b: Seq<u8>, i: int, n: int, m: int)
    requires
        begins_word(b, "eyJ"@, i),
        n >= 4,
        m >= 4,
        all_of(b, i + 3, n, |c: u8| key_byte(c)),
        stands(b, ".eyJ"@, i + 3 + n),
        all_of(b, i + n + 7, m, |c: u8| key_byte(c)),
        stands(b, "."@, i + n + 7 + m),
    ensures
        Marker::Jwt.begins_at(b, i),
{
    reveal_strlit(".eyJ");
    reveal_strlit(".");
    lemma_long_run(b, i + 3, n);
    lemma_long_run(b, i + 3, n + 1);
    lemma_long_run(b, i + n + 7, m);
    lemma_long_run(b, i + n + 7, m + 1);
    let key = |c: u8| key_byte(c);
    assert(".eyJ"@[0] as u32 == b[i + 3 + n + 0] as u32);
    assert("."@[0] as u32 == b[i + n + 7 + m + 0] as u32);
    if all_of(b, i + 3, n + 1, key) {
        assert(key(b[i + 3 + n]));
    }
    if all_of(b, i + n + 7, m + 1, key) {
        assert(key(b[i + n + 7 + m]));
    }
}

/// Nothing else is a JSON web token: where one begins, both of its parts are
/// there, each with four or more key bytes, and a dot behind each.
pub proof fn law_only_web_tokens(b: Seq<u8>, i: int)
    requires
        0 <= i,
        Marker::Jwt.begins_at(b, i),
    ensures
        begins_word(b, "eyJ"@, i),
        exists|n: int, m: int|
            n >= 4 && m >= 4 && all_of(b, i + 3, n, |c: u8| key_byte(c)) && #[trigger] stands(b, ".eyJ"@, i + 3 + n)
                && all_of(b, i + n + 7, m, |c: u8| key_byte(c)) && #[trigger] stands(b, "."@, i + n + 7 + m),
{
    let n = run(b, i + 3, Class::TokenDash);
    let m = run(b, i + 3 + n + 4, Class::TokenDash);
    lemma_long_run(b, i + 3, n);
    lemma_long_run(b, i + n + 7, m);
    assert(all_of(b, i + 3, n, |c: u8| key_byte(c)));
    assert(all_of(b, i + n + 7, m, |c: u8| key_byte(c)));
    assert(stands(b, ".eyJ"@, i + 3 + n));
    assert(stands(b, "."@, i + n + 7 + m));
}

/// An AWS secret key is found behind its label, in any case: forty key bytes
/// by themselves, not farther than seventy bytes behind it and with nothing
/// but a label's bytes between.
pub proof fn law_aws_secret_keys(b: Seq<u8>, i: int, n: int)
    requires
        small_bytes_at(b, "aws_secret"@, i),
        0 < n < 70,
        all_of(
            b,
            i + 10,
            n,
            |c: u8| word_byte(c) || c == 32 || c == 9 || c == 61 || c == 58 || c == 34 || c == 39,
        ),
        all_of(b, i + 10 + n, 40, |c: u8| letter_or_digit(c)),
        !(letter_or_digit(b[i + 9 + n]) || b[i + 9 + n] == 47 || b[i + 9 + n] == 43 || b[i + 9 + n] == 61),
        i + 50 + n < b.len() ==> !(letter_or_digit(b[i + 50 + n]) || b[i + 50 + n] == 47 || b[i + 50 + n] == 43 || b[i + 50 + n]
            == 61),
    ensures
        Marker::AwsSecretKey.begins_at(b, i),
{
    let j = i + 10 + n;
    let label = |c: u8| word_byte(c) || c == 32 || c == 9 || c == 61 || c == 58 || c == 34 || c == 39;
    let letters = |c: u8| letter_or_digit(c);
    lemma_run(b, i + 10, Class::Label, n + 1);
    lemma_same_kind(b, i + 10, n + 1, |c: u8| Class::Label.has(c), label);
    assert(all_of(b, i + 10, n + 1, label)) by {
        assert forall|k: int| i + 10 <= k < i + 10 + n + 1 implies label(#[trigger] b[k]) by {
            if k == j {
                assert(letters(b[k]));
            }
        }
    }
    lemma_run(b, j, Class::KeyByte, 40);
    lemma_run(b, j, Class::KeyByte, 41);
    let kb = |c: u8| Class::KeyByte.has(c);
    assert(all_of(b, j, 40, kb)) by {
        assert forall|k: int| j <= k < j + 40 implies kb(#[trigger] b[k]) by {
            assert(letters(b[k]));
        }
    }
    if all_of(b, j, 41, kb) {
        assert(kb(b[j + 40]));
    }
    assert(forty_key_bytes(b, j));
}

/// A password is found where its label, in any case, has a colon or an equals
/// sign behind it, blanks if any, and a value in quotes that is not empty and
/// does not begin like a placeholder.
pub proof fn law_quoted_passwords(b: Seq<u8>, i: int, before: int, behind: int, n: int)
    requires
        small_bytes_at(b, "password"@, i),
        before >= 0,
        behind >= 0,
        all_of(b, i + 8, before, |c: u8| c == 32 || c == 9 || c == 34 || c == 39),
        i + 9 + before + behind + n + 1 < b.len(),
        b[i + 8 + before] == 58 || b[i + 8 + before] == 61,
        all_of(b, i + 9 + before, behind, |c: u8| c == 32 || c == 9),
        n >= 1,
        ({
            let q = i + 9 + before + behind;
            &&& b[q] == 34 || b[q] == 39
            &&& all_of(b, q + 1, n, |c: u8| c != b[q] && c != 10)
            &&& b[q + 1 + n] == b[q]
            &&& b[q + 1] != 36 && b[q + 1] != 123 && b[q + 1] != 60 && b[q + 1] != 37
        }),
    ensures
        Marker::Password.begins_at(b, i),
{
    reveal_strlit("password");
    let sep = i + 8 + before;
    let val = sep + 1 + behind;
    let soft = |c: u8| c == 32 || c == 9 || c == 34 || c == 39;
    let blank = |c: u8| c == 32 || c == 9;
    lemma_run(b, i + 8, Class::BlankQuote, before);
    lemma_run(b, i + 8, Class::BlankQuote, before + 1);
    lemma_same_kind(b, i + 8, before, |c: u8| Class::BlankQuote.has(c), soft);
    lemma_same_kind(b, i + 8, before + 1, |c: u8| Class::BlankQuote.has(c), soft);
    if all_of(b, i + 8, before + 1, soft) {
        assert(soft(b[sep]));
    }
    assert(run(b, i + 8, Class::BlankQuote) == before);
    lemma_run(b, sep + 1, Class::Blank, behind);
    lemma_run(b, sep + 1, Class::Blank, behind + 1);
    lemma_same_kind(b, sep + 1, behind, |c: u8| Class::Blank.has(c), blank);
    lemma_same_kind(b, sep + 1, behind + 1, |c: u8| Class::Blank.has(c), blank);
    if all_of(b, sep + 1, behind + 1, blank) {
        assert(blank(b[val]));
    }
    assert(run(b, sep + 1, Class::Blank) == behind);
    if before > 0 {
        assert(soft(b[i + 8]));
    }
    if behind > 0 {
        assert(blank(b[sep + 1]));
    }
    let rest = b.skip(val);
    let q = b[val];
    let inner = |c: u8| c != b[val] && c != 10;
    let held = |c: u8| Class::Quoted(q).has(c);
    lemma_run(rest, 1, Class::Quoted(q), n);
    lemma_run(rest, 1, Class::Quoted(q), n + 1);
    assert(all_of(rest, 1, n, held)) by {
        assert forall|k: int| 1 <= k < 1 + n implies held(#[trigger] rest[k]) by {
            assert(rest[k] == b[val + k]);
            assert(inner(b[val + k]));
        }
    }
    if all_of(rest, 1, n + 1, held) {
        assert(held(rest[1 + n]));
        assert(rest[1 + n] == b[val + 1 + n]);
    }
    assert(run(rest, 1, Class::Quoted(q)) == n);
    assert(crate::code_index::secrets::literal_value(rest));
}

// --- what is said of a secret ---

/// The label of a text names a pattern that its bytes hold, the first in the
/// order of the patterns.
pub proof fn law_label_is_of_the_first_pattern(text: Seq<char>)
    ensures
        ({
            let b = vstd::utf8::encode_utf8(text);
            let l = content_label(text);
            let p1 = Marker::PrivateKey.in_bytes(b);
            let p2 = p1 || Marker::GithubToken.in_bytes(b);
            let p3 = p2 || Marker::SkApiKey.in_bytes(b);
            let p4 = p3 || Marker::SlackToken.in_bytes(b);
            let p5 = p4 || Marker::AwsAccessKey.in_bytes(b);
            let p6 = p5 || Marker::GoogleApiKey.in_bytes(b);
            let p7 = p6 || Marker::Jwt.in_bytes(b);
            let p8 = p7 || Marker::AwsSecretKey.in_bytes(b);
            let p9 = p8 || Marker::Password.in_bytes(b);
            &&& p1 ==> l == Some("secret-content(private-key)"@)
            &&& p2 && !p1 ==> l == Some("secret-content(github-token)"@)
            &&& p3 && !p2 ==> l == Some("secret-content(sk-api-key)"@)
            &&& p4 && !p3 ==> l == Some("secret-content(slack-token)"@)
            &&& p5 && !p4 ==> l == Some("secret-content(aws-access-key)"@)
            &&& p6 && !p5 ==> l == Some("secret-content(google-api-key)"@)
            &&& p7 && !p6 ==> l == Some("secret-content(jwt)"@)
            &&& p8 && !p7 ==> l == Some("secret-content(aws-secret-key)"@)
            &&& p9 && !p8 ==> l == Some("secret-content(password)"@)
            &&& !p9 ==> l is None
        }),
{
}

} // verus!
