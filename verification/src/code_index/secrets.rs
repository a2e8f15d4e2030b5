//! Secret filtering: the knowledge bank never stores a secret, neither as a
//! chunk nor in a prompt.
//!
//! Two checks, both conservative: file names that almost always hold secrets,
//! and high-confidence secret markers in the text itself. Both answer with a
//! label that names the pattern and never the matched value.

use vstd::prelude::*;

use crate::letters::{ascii_lower_all, lower_all, same_letters};
use crate::text::{
    chars_of, contains, ends_with, has_prefix, has_suffix, holds_text, is_text, split, split_char, starts_with, views,
};

verus! {

// --- by path ---

/// The last component of a slash-separated path.
pub open spec fn base_name(path: Seq<char>) -> Seq<char> {
    split(path, '/').last()
}

/// The label of the first component that names secrets or credentials.
pub open spec fn component_label(comps: Seq<Seq<char>>) -> Option<Seq<char>>
    decreases comps.len(),
{
    if comps.len() == 0 {
        None
    } else if contains(comps[0], "credentials"@) {
        Some("secret-path(*credentials*)"@)
    } else if contains(comps[0], "secret"@) {
        Some("secret-path(*secret*)"@)
    } else {
        component_label(comps.drop_first())
    }
}

/// The label of a path whose letters are already small.
pub open spec fn lower_path_label(lower: Seq<char>) -> Option<Seq<char>> {
    let base = base_name(lower);
    if base == ".env"@ || starts_with(base, ".env."@) {
        Some("secret-path(.env)"@)
    } else if ends_with(base, ".pem"@) {
        Some("secret-path(*.pem)"@)
    } else if ends_with(base, ".key"@) {
        Some("secret-path(*.key)"@)
    } else if ends_with(base, ".p12"@) {
        Some("secret-path(*.p12)"@)
    } else if ends_with(base, ".pfx"@) {
        Some("secret-path(*.pfx)"@)
    } else if ends_with(base, ".kdbx"@) {
        Some("secret-path(*.kdbx)"@)
    } else if ends_with(base, ".keystore"@) {
        Some("secret-path(*.keystore)"@)
    } else if starts_with(base, "id_rsa"@) {
        Some("secret-path(id_rsa*)"@)
    } else if starts_with(base, "id_ed25519"@) {
        Some("secret-path(id_ed25519*)"@)
    } else {
        component_label(split(lower, '/'))
    }
}

/// Which secret-bearing file name a path has, if any; ASCII case does not count.
pub open spec fn path_label(path: Seq<char>) -> Option<Seq<char>> {
    lower_path_label(ascii_lower_all(path))
}

/// A label as the value that a contract speaks of.
pub open spec fn label_view(r: Option<&'static str>) -> Option<Seq<char>> {
    match r {
        Some(l) => Some(l@),
        None => None,
    }
}

pub proof fn lemma_split_nonempty(s: Seq<char>, c: char)
    ensures
        split(s, c).len() > 0,
{
}

/// `Some(reason)` when `path` looks like a secret-bearing file.
pub fn path_reason(path: &str) -> (r: Option<&'static str>)
    ensures
        label_view(r) == path_label(path@),
{
    let cs = chars_of(path);
    let lower = lower_all(cs.as_slice());
    let comps = split_char(lower.as_slice(), '/');
    proof {
        lemma_split_nonempty(lower@, '/');
        assert(views(comps@).len() == comps@.len());
    }
    let base: &[char] = comps[comps.len() - 1];
    assert(base@ == base_name(lower@));
    if is_text(base, ".env") || has_prefix(base, ".env.") {
        return Some("secret-path(.env)");
    }
    if has_suffix(base, ".pem") {
        return Some("secret-path(*.pem)");
    }
    if has_suffix(base, ".key") {
        return Some("secret-path(*.key)");
    }
    if has_suffix(base, ".p12") {
        return Some("secret-path(*.p12)");
    }
    if has_suffix(base, ".pfx") {
        return Some("secret-path(*.pfx)");
    }
    if has_suffix(base, ".kdbx") {
        return Some("secret-path(*.kdbx)");
    }
    if has_suffix(base, ".keystore") {
        return Some("secret-path(*.keystore)");
    }
    if has_prefix(base, "id_rsa") {
        return Some("secret-path(id_rsa*)");
    }
    if has_prefix(base, "id_ed25519") {
        return Some("secret-path(id_ed25519*)");
    }
    let mut i: usize = 0;
    assert(views(comps@).skip(0) =~= views(comps@));
    while i < comps.len()
        invariant
            i <= comps.len(),
            component_label(views(comps@).skip(i as int)) == path_label(path@),
        decreases comps.len() - i,
    {
        assert(views(comps@).skip(i as int)[0] == comps@[i as int]@);
        if holds_text(comps[i], "credentials") {
            return Some("secret-path(*credentials*)");
        }
        if holds_text(comps[i], "secret") {
            return Some("secret-path(*secret*)");
        }
        assert(views(comps@).skip(i as int).drop_first() =~= views(comps@).skip(i + 1));
        i = i + 1;
    }
    None
}

// --- by content ---

/// Whether the ASCII text `p` stands in `b` at index `i`.
pub open spec fn bytes_at(b: Seq<u8>, p: Seq<char>, i: int) -> bool {
    0 <= i && i + p.len() <= b.len() && forall|j: int| 0 <= j < p.len() ==> #[trigger] p[j] as u32 == b[i + j] as u32
}

/// `c` with an ASCII capital made small.
pub open spec fn small(c: u8) -> u8 {
    if 0x41 <= c <= 0x5a {
        (c + 32) as u8
    } else {
        c
    }
}

/// Whether the ASCII text `p` stands in `b` at index `i`, up to the case of `b`.
pub open spec fn small_bytes_at(b: Seq<u8>, p: Seq<char>, i: int) -> bool {
    0 <= i && i + p.len() <= b.len() && forall|j: int|
        0 <= j < p.len() ==> #[trigger] p[j] as u32 == small(b[i + j]) as u32
}

pub open spec fn is_alnum(c: u8) -> bool {
    0x30 <= c <= 0x39 || 0x41 <= c <= 0x5a || 0x61 <= c <= 0x7a
}

pub open spec fn is_token(c: u8) -> bool {
    is_alnum(c) || c == 0x5f
}

pub open spec fn is_base64(c: u8) -> bool {
    is_alnum(c) || c == 0x2f || c == 0x2b || c == 0x3d
}

/// Kinds of bytes that runs are made of.
#[derive(Clone, Copy)]
pub enum Class {
    /// ASCII letters and digits.
    Alnum,
    /// ASCII letters, digits and the underscore.
    Token,
    /// `Token` and the dash.
    TokenDash,
    /// ASCII digits and capitals.
    UpperDigit,
    /// ASCII letters, digits, the slash and the plus sign.
    KeyByte,
    /// What may stand between a key's label and the key.
    Label,
    /// Blanks and quotes.
    BlankQuote,
    /// Spaces and tabs.
    Blank,
    /// Anything on the same line but the given quote.
    Quoted(u8),
    /// Anything but white space, a comma, a semicolon and a closing bracket.
    Bare,
}

impl Class {
    pub open spec fn has(self, c: u8) -> bool {
        match self {
            Class::Alnum => is_alnum(c),
            Class::Token => is_token(c),
            Class::TokenDash => is_token(c) || c == 0x2d,
            Class::UpperDigit => 0x30 <= c <= 0x39 || 0x41 <= c <= 0x5a,
            Class::KeyByte => is_alnum(c) || c == 0x2f || c == 0x2b,
            Class::Label => is_token(c) || c == 0x20 || c == 0x09 || c == 0x3d || c == 0x3a || c == 0x22 || c == 0x27,
            Class::BlankQuote => c == 0x20 || c == 0x09 || c == 0x22 || c == 0x27,
            Class::Blank => c == 0x20 || c == 0x09,
            Class::Quoted(q) => c != q && c != 0x0a,
            Class::Bare => !(c == 0x20 || c == 0x09 || c == 0x0a || c == 0x0c || c == 0x0d || c == 0x2c || c == 0x3b
                || c == 0x29),
        }
    }
}

/// How many bytes from `from` on are of the class, up to the first that is not.
pub open spec fn run(b: Seq<u8>, from: int, class: Class) -> int
    decreases b.len() - from,
{
    if 0 <= from < b.len() && class.has(b[from]) {
        1 + run(b, from + 1, class)
    } else {
        0
    }
}

/// Whether index `i` does not continue an identifier.
pub open spec fn word_start(b: Seq<u8>, i: int) -> bool {
    i == 0 || !is_token(b[i - 1])
}

/// Whether the ASCII text `p` stands in `b` at index `i` and starts a word there.
pub open spec fn word_at(b: Seq<u8>, p: Seq<char>, i: int) -> bool {
    bytes_at(b, p, i) && word_start(b, i)
}

/// The byte at `i`, where there is one, is of the class.
pub open spec fn next_is(b: Seq<u8>, i: int, class: Class) -> bool {
    0 <= i < b.len() && class.has(b[i])
}

/// Kinds of secret markers, in the order in which they are looked for.
#[derive(Clone, Copy)]
pub enum Marker {
    PrivateKey,
    GithubToken,
    SkApiKey,
    SlackToken,
    AwsAccessKey,
    GoogleApiKey,
    Jwt,
    AwsSecretKey,
    Password,
}

/// No line feed from `i` to before `j`.
pub open spec fn same_line(b: Seq<u8>, i: int, j: int) -> bool {
    forall|k: int| i <= k < j ==> #[trigger] b[k] != 0x0a
}

/// A PEM private key: its opening line begins at `i` and names a private key.
pub open spec fn private_key_at(b: Seq<u8>, i: int) -> bool {
    bytes_at(b, "-----BEGIN"@, i) && exists|j: int|
        i <= j && #[trigger] bytes_at(b, "PRIVATE KEY-----"@, j) && same_line(b, i, j)
}

/// A GitHub token: its prefix and 20 or more token bytes.
pub open spec fn github_token_at(b: Seq<u8>, i: int) -> bool {
    ||| word_at(b, "ghp_"@, i) && run(b, i + 4, Class::Token) >= 20
    ||| word_at(b, "gho_"@, i) && run(b, i + 4, Class::Token) >= 20
    ||| word_at(b, "github_pat_"@, i) && run(b, i + 11, Class::Token) >= 20
}

/// An API key in the `sk-` form or one of its dashed forms.
pub open spec fn sk_key_at(b: Seq<u8>, i: int) -> bool {
    word_at(b, "sk-"@, i) && {
        ||| run(b, i + 3, Class::Alnum) >= 20
        ||| bytes_at(b, "ant-"@, i + 3) && run(b, i + 7, Class::TokenDash) >= 20
        ||| bytes_at(b, "proj-"@, i + 3) && run(b, i + 8, Class::TokenDash) >= 20
    }
}

/// A Slack token: one of its five prefixes and 10 or more bytes.
pub open spec fn slack_token_at(b: Seq<u8>, i: int) -> bool {
    &&& word_at(b, "xoxb-"@, i) || word_at(b, "xoxa-"@, i) || word_at(b, "xoxp-"@, i) || word_at(
        b,
        "xoxr-"@,
        i,
    ) || word_at(b, "xoxs-"@, i)
    &&& run(b, i + 5, Class::TokenDash) >= 10
}

/// An AWS access key id: exactly 16 digits or capitals, and the word ends.
pub open spec fn aws_access_at(b: Seq<u8>, i: int) -> bool {
    &&& word_at(b, "AKIA"@, i)
    &&& run(b, i + 4, Class::UpperDigit) == 16
    &&& !next_is(b, i + 20, Class::Token)
}

/// A Google API key: its prefix and 35 or more bytes.
pub open spec fn google_key_at(b: Seq<u8>, i: int) -> bool {
    word_at(b, "AIza"@, i) && run(b, i + 4, Class::TokenDash) >= 35
}

/// A JSON web token: two base64 segments that open an object, each with a dot
/// behind it.
pub open spec fn jwt_at(b: Seq<u8>, i: int) -> bool {
    let n1 = run(b, i + 3, Class::TokenDash);
    let dot = i + 3 + n1;
    let n2 = run(b, dot + 4, Class::TokenDash);
    &&& word_at(b, "eyJ"@, i)
    &&& n1 >= 4
    &&& bytes_at(b, ".eyJ"@, dot)
    &&& n2 >= 4
    &&& bytes_at(b, "."@, dot + 4 + n2)
}

/// Exactly 40 key bytes at `j`, not part of a longer base64 run.
pub open spec fn forty_key_bytes(b: Seq<u8>, j: int) -> bool {
    &&& run(b, j, Class::KeyByte) == 40
    &&& j == 0 || !is_base64(b[j - 1])
    &&& j + 40 < b.len() ==> !is_base64(b[j + 40])
}

/// An AWS secret key: 40 key bytes within 80 bytes of the start of its label,
/// with nothing but label and separator bytes before it.
pub open spec fn aws_secret_at(b: Seq<u8>, i: int) -> bool {
    small_bytes_at(b, "aws_secret"@, i) && exists|j: int|
        {
            &&& i + 10 <= j < i + 80
            &&& j < b.len()
            &&& j - (i + 10) < run(b, i + 10, Class::Label)
            &&& #[trigger] forty_key_bytes(b, j)
        }
}

/// A literal value: a closed, non-empty quoted string that is no placeholder,
/// or a bare token of six bytes or more with a digit or a symbol in it that is
/// neither an identifier nor an expression.
pub open spec fn literal_value(rest: Seq<u8>) -> bool {
    if rest.len() == 0 {
        false
    } else if rest[0] == 0x22 || rest[0] == 0x27 {
        let n = run(rest, 1, Class::Quoted(rest[0]));
        &&& 1 + n < rest.len()
        &&& rest[1 + n] == rest[0]
        &&& n >= 1
        &&& !is_placeholder(rest[1])
    } else {
        let tok = rest.take(run(rest, 0, Class::Bare));
        &&& tok.len() >= 6
        &&& !is_placeholder(tok[0]) && !is_operator(tok[0])
        &&& !tok.contains(0x28u8)
        &&& exists|k: int| 0 <= k < tok.len() && is_telling(#[trigger] tok[k])
        &&& exists|k: int| 0 <= k < tok.len() && !is_wordy(#[trigger] tok[k])
    }
}

/// What opens a template placeholder.
pub open spec fn is_placeholder(c: u8) -> bool {
    c == 0x24 || c == 0x7b || c == 0x3c || c == 0x25
}

/// What opens an expression.
pub open spec fn is_operator(c: u8) -> bool {
    c == 0x28 || c == 0x5b || c == 0x26 || c == 0x2a
}

/// A digit or one of `!@#^+/=_-`.
pub open spec fn is_telling(c: u8) -> bool {
    0x30 <= c <= 0x39 || c == 0x21 || c == 0x40 || c == 0x23 || c == 0x5e || c == 0x2b || c == 0x2f || c == 0x3d
        || c == 0x5f || c == 0x2d
}

/// A letter or an underscore.
pub open spec fn is_wordy(c: u8) -> bool {
    is_token(c) && !(0x30 <= c <= 0x39)
}

/// A literal assigned to something called `password`: the word, blanks or
/// quotes, a colon or a single equals sign, blanks, and the value.
pub open spec fn password_at(b: Seq<u8>, i: int) -> bool {
    let sep = i + 8 + run(b, i + 8, Class::BlankQuote);
    let val = sep + 1 + run(b, sep + 1, Class::Blank);
    &&& small_bytes_at(b, "password"@, i)
    &&& !next_is(b, i + 8, Class::Token)
    &&& sep < b.len() && (b[sep] == 0x3a || b[sep] == 0x3d)
    &&& !(sep + 1 < b.len() && (b[sep + 1] == 0x3d || b[sep + 1] == 0x3e))
    &&& literal_value(b.skip(val))
}

impl Marker {
    /// Whether a marker of this kind begins at index `i`.
    pub open spec fn begins_at(self, b: Seq<u8>, i: int) -> bool {
        match self {
            Marker::PrivateKey => private_key_at(b, i),
            Marker::GithubToken => github_token_at(b, i),
            Marker::SkApiKey => sk_key_at(b, i),
            Marker::SlackToken => slack_token_at(b, i),
            Marker::AwsAccessKey => aws_access_at(b, i),
            Marker::GoogleApiKey => google_key_at(b, i),
            Marker::Jwt => jwt_at(b, i),
            Marker::AwsSecretKey => aws_secret_at(b, i),
            Marker::Password => password_at(b, i),
        }
    }

    /// Whether the bytes hold a marker of this kind anywhere.
    pub open spec fn in_bytes(self, b: Seq<u8>) -> bool {
        exists|i: int| 0 <= i < b.len() && #[trigger] self.begins_at(b, i)
    }
}

/// The label of the first kind of marker that the bytes hold.
pub open spec fn bytes_label(b: Seq<u8>) -> Option<Seq<char>> {
    if Marker::PrivateKey.in_bytes(b) {
        Some("secret-content(private-key)"@)
    } else if Marker::GithubToken.in_bytes(b) {
        Some("secret-content(github-token)"@)
    } else if Marker::SkApiKey.in_bytes(b) {
        Some("secret-content(sk-api-key)"@)
    } else if Marker::SlackToken.in_bytes(b) {
        Some("secret-content(slack-token)"@)
    } else if Marker::AwsAccessKey.in_bytes(b) {
        Some("secret-content(aws-access-key)"@)
    } else if Marker::GoogleApiKey.in_bytes(b) {
        Some("secret-content(google-api-key)"@)
    } else if Marker::Jwt.in_bytes(b) {
        Some("secret-content(jwt)"@)
    } else if Marker::AwsSecretKey.in_bytes(b) {
        Some("secret-content(aws-secret-key)"@)
    } else if Marker::Password.in_bytes(b) {
        Some("secret-content(password)"@)
    } else {
        None
    }
}

/// Which secret marker a text holds, if any.
pub open spec fn content_label(text: Seq<char>) -> Option<Seq<char>> {
    bytes_label(vstd::utf8::encode_utf8(text))
}

proof fn lemma_run(b: Seq<u8>, from: int, class: Class)
    requires
        0 <= from,
    ensures
        0 <= run(b, from, class),
        from <= b.len() ==> from + run(b, from, class) <= b.len(),
        from > b.len() ==> run(b, from, class) == 0,
        forall|k: int| from <= k < from + run(b, from, class) ==> class.has(#[trigger] b[k]),
        from + run(b, from, class) < b.len() ==> !class.has(b[from + run(b, from, class)]),
    decreases b.len() - from,
{
    if 0 <= from < b.len() && class.has(b[from]) {
        lemma_run(b, from + 1, class);
    }
}

fn is_alnum_byte(c: u8) -> (r: bool)
    ensures
        r == is_alnum(c),
{
    (0x30 <= c && c <= 0x39) || (0x41 <= c && c <= 0x5a) || (0x61 <= c && c <= 0x7a)
}

fn is_token_char(c: u8) -> (r: bool)
    ensures
        r == is_token(c),
{
    is_alnum_byte(c) || c == 0x5f
}

fn is_b64(c: u8) -> (r: bool)
    ensures
        r == is_base64(c),
{
    is_alnum_byte(c) || c == 0x2f || c == 0x2b || c == 0x3d
}

impl Class {
    fn matches(self, c: u8) -> (r: bool)
        ensures
            r == self.has(c),
    {
        match self {
            Class::Alnum => is_alnum_byte(c),
            Class::Token => is_token_char(c),
            Class::TokenDash => is_token_char(c) || c == 0x2d,
            Class::UpperDigit => (0x30 <= c && c <= 0x39) || (0x41 <= c && c <= 0x5a),
            Class::KeyByte => is_alnum_byte(c) || c == 0x2f || c == 0x2b,
            Class::Label => is_token_char(c) || c == 0x20 || c == 0x09 || c == 0x3d || c == 0x3a || c == 0x22 || c
                == 0x27,
            Class::BlankQuote => c == 0x20 || c == 0x09 || c == 0x22 || c == 0x27,
            Class::Blank => c == 0x20 || c == 0x09,
            Class::Quoted(q) => c != q && c != 0x0a,
            Class::Bare => !(c == 0x20 || c == 0x09 || c == 0x0a || c == 0x0c || c == 0x0d || c == 0x2c || c == 0x3b
                || c == 0x29),
        }
    }
}

/// True when the byte before `idx`, if any, is not part of an identifier.
fn at_word_start(bytes: &[u8], idx: usize) -> (r: bool)
    requires
        idx <= bytes@.len(),
    ensures
        r == word_start(bytes@, idx as int),
{
    idx == 0 || !is_token_char(bytes[idx - 1])
}

/// Length of the run starting at `from` whose bytes are of the class.
fn run_len(bytes: &[u8], from: usize, class: Class) -> (r: usize)
    ensures
        r == run(bytes@, from as int, class),
        from <= bytes@.len() ==> from + r <= bytes@.len(),
        from > bytes@.len() ==> r == 0,
{
    proof {
        lemma_run(bytes@, from as int, class);
    }
    let mut i: usize = from;
    while i < bytes.len() && class.matches(bytes[i])
        invariant
            from <= i,
            from <= bytes@.len() ==> i <= bytes@.len(),
            i > from ==> i <= bytes@.len(),
            run(bytes@, from as int, class) == i - from + run(bytes@, i as int, class),
        decreases bytes@.len() - i,
    {
        i = i + 1;
    }
    i - from
}

/// Whether `p` stands in `bytes` at `i`.
fn ascii_at(bytes: &[u8], p: &str, i: usize) -> (r: bool)
    requires
        i <= bytes@.len(),
    ensures
        r == bytes_at(bytes@, p@, i as int),
{
    let pc = chars_of(p);
    let end: usize = bytes.len();
    if end - i < pc.len() {
        return false;
    }
    let mut j: usize = 0;
    while j < pc.len()
        invariant
            j <= pc.len(),
            pc@ == p@,
            i + pc@.len() <= end,
            end == bytes@.len(),
            forall|k: int| 0 <= k < j ==> #[trigger] p@[k] as u32 == bytes@[i + k] as u32,
        decreases pc.len() - j,
    {
        if pc[j] as u32 != bytes[i + j] as u32 {
            return false;
        }
        j = j + 1;
    }
    true
}

/// Whether `p` stands in `bytes` at `i`, up to the case of `bytes`.
fn small_ascii_at(bytes: &[u8], p: &str, i: usize) -> (r: bool)
    requires
        i <= bytes@.len(),
    ensures
        r == small_bytes_at(bytes@, p@, i as int),
{
    let pc = chars_of(p);
    let end: usize = bytes.len();
    if end - i < pc.len() {
        return false;
    }
    let mut j: usize = 0;
    while j < pc.len()
        invariant
            j <= pc.len(),
            pc@ == p@,
            i + pc@.len() <= end,
            end == bytes@.len(),
            forall|k: int| 0 <= k < j ==> #[trigger] p@[k] as u32 == small(bytes@[i + k]) as u32,
        decreases pc.len() - j,
    {
        let c: u8 = bytes[i + j];
        let s: u8 = if 0x41 <= c && c <= 0x5a {
            c + 32
        } else {
            c
        };
        if pc[j] as u32 != s as u32 {
            return false;
        }
        j = j + 1;
    }
    true
}

/// Whether the word `p` begins at `i`.
fn prefix_hit(bytes: &[u8], p: &str, i: usize) -> (r: bool)
    requires
        i <= bytes@.len(),
    ensures
        r == word_at(bytes@, p@, i as int),
{
    ascii_at(bytes, p, i) && at_word_start(bytes, i)
}

/// Whether a PEM private key's opening line begins at `i`.
fn is_private_key_at(bytes: &[u8], i: usize) -> (r: bool)
    requires
        i <= bytes@.len(),
    ensures
        r == private_key_at(bytes@, i as int),
{
    if !ascii_at(bytes, "-----BEGIN", i) {
        return false;
    }
    let mut j: usize = i;
    while j < bytes.len()
        invariant
            i <= j <= bytes@.len(),
            same_line(bytes@, i as int, j as int),
            forall|k: int| i <= k < j ==> !bytes_at(bytes@, "PRIVATE KEY-----"@, k),
            bytes_at(bytes@, "-----BEGIN"@, i as int),
        decreases bytes@.len() - j,
    {
        if ascii_at(bytes, "PRIVATE KEY-----", j) {
            return true;
        }
        if bytes[j] == 0x0a {
            assert(bytes@[j as int] == 0x0a);
            return false;
        }
        j = j + 1;
    }
    assert forall|k: int| i <= k implies !bytes_at(bytes@, "PRIVATE KEY-----"@, k) by {
        reveal_strlit("PRIVATE KEY-----");
    }
    false
}

/// See `literal_value`.
fn password_value_is_literal(rest: &[u8]) -> (r: bool)
    ensures
        r == literal_value(rest@),
{
    if rest.len() == 0 {
        return false;
    }
    let first: u8 = rest[0];
    if first == 0x22 || first == 0x27 {
        let n: usize = run_len(rest, 1, Class::Quoted(first));
        if n < 1 {
            return false;
        }
        let c: u8 = rest[1];
        return 1 + n < rest.len() && rest[1 + n] == first && !(c == 0x24 || c == 0x7b || c == 0x3c || c == 0x25);
    }
    let n: usize = run_len(rest, 0, Class::Bare);
    let ghost tok = rest@.take(run(rest@, 0, Class::Bare));
    if n < 6 {
        return false;
    }
    assert(tok[0] == rest@[0]);
    if first == 0x24 || first == 0x7b || first == 0x3c || first == 0x25 || first == 0x28 || first == 0x5b || first == 0x26
        || first == 0x2a {
        return false;
    }
    let mut telling: bool = false;
    let mut wordy: bool = true;
    let mut k: usize = 0;
    while k < n
        invariant
            k <= n <= rest@.len(),
            0 < rest@.len(),
            rest@[0] != 0x22,
            rest@[0] != 0x27,
            n == run(rest@, 0, Class::Bare),
            tok == rest@.take(n as int),
            forall|j: int| 0 <= j < k ==> tok[j] != 0x28,
            telling == exists|j: int| 0 <= j < k && is_telling(#[trigger] tok[j]),
            wordy == forall|j: int| 0 <= j < k ==> is_wordy(#[trigger] tok[j]),
        decreases n - k,
    {
        let c: u8 = rest[k];
        assert(tok[k as int] == c);
        if c == 0x28 {
            assert(tok.contains(0x28u8));
            return false;
        }
        let digit: bool = 0x30 <= c && c <= 0x39;
        if digit || c == 0x21 || c == 0x40 || c == 0x23 || c == 0x5e || c == 0x2b || c == 0x2f || c == 0x3d || c == 0x5f
            || c == 0x2d {
            telling = true;
        }
        if !is_token_char(c) || digit {
            wordy = false;
        }
        k = k + 1;
    }
    assert(!tok.contains(0x28u8));
    telling && !wordy
}

/// Whether a secret key stands behind an AWS label that begins at `i`.
fn is_aws_secret_at(bytes: &[u8], i: usize) -> (r: bool)
    requires
        i < bytes@.len(),
    ensures
        r == aws_secret_at(bytes@, i as int),
{
    proof {
        reveal_strlit("aws_secret");
    }
    if !small_ascii_at(bytes, "aws_secret", i) {
        return false;
    }
    let end: usize = bytes.len();
    let window_end: usize = if end - i < 80 {
        end
    } else {
        i + 80
    };
    let start: usize = i + 10;
    let label: usize = run_len(bytes, start, Class::Label);
    let mut j: usize = start;
    while j < window_end && j - start < label
        invariant
            start == i + 10,
            start <= j,
            end == bytes@.len(),
            window_end <= end,
            window_end <= i + 80,
            window_end == end || window_end == i + 80,
            label == run(bytes@, i + 10, Class::Label),
            small_bytes_at(bytes@, "aws_secret"@, i as int),
            forall|k: int| start <= k < j ==> !#[trigger] forty_key_bytes(bytes@, k),
        decreases window_end - j,
    {
        let n: usize = run_len(bytes, j, Class::KeyByte);
        if n == 40 && !is_b64(bytes[j - 1]) && (j + 40 >= end || !is_b64(bytes[j + 40])) {
            assert(forty_key_bytes(bytes@, j as int));
            return true;
        }
        j = j + 1;
    }
    false
}

/// Whether an assignment of a literal to a password begins at `i`.
fn is_password_at(bytes: &[u8], i: usize) -> (r: bool)
    requires
        i < bytes@.len(),
    ensures
        r == password_at(bytes@, i as int),
{
    proof {
        reveal_strlit("password");
    }
    if !small_ascii_at(bytes, "password", i) {
        return false;
    }
    let end: usize = bytes.len();
    let after: usize = i + 8;
    if after < end && is_token_char(bytes[after]) {
        return false;
    }
    let sep: usize = after + run_len(bytes, after, Class::BlankQuote);
    if sep >= end || !(bytes[sep] == 0x3a || bytes[sep] == 0x3d) {
        return false;
    }
    if sep + 1 < end && (bytes[sep + 1] == 0x3d || bytes[sep + 1] == 0x3e) {
        return false;
    }
    let val: usize = sep + 1 + run_len(bytes, sep + 1, Class::Blank);
    assert(bytes@.subrange(val as int, bytes@.len() as int) =~= bytes@.skip(val as int));
    password_value_is_literal(vstd::slice::slice_subrange(bytes, val, end))
}

/// Whether a JSON web token begins at `i`.
fn is_jwt_at(bytes: &[u8], i: usize) -> (r: bool)
    requires
        i < bytes@.len(),
    ensures
        r == jwt_at(bytes@, i as int),
{
    proof {
        reveal_strlit("eyJ");
        reveal_strlit(".eyJ");
        reveal_strlit(".");
    }
    if !prefix_hit(bytes, "eyJ", i) {
        return false;
    }
    let end: usize = bytes.len();
    let n1: usize = run_len(bytes, i + 3, Class::TokenDash);
    let dot: usize = i + 3 + n1;
    if n1 < 4 || !ascii_at(bytes, ".eyJ", dot) {
        return false;
    }
    let n2: usize = run_len(bytes, dot + 4, Class::TokenDash);
    n2 >= 4 && ascii_at(bytes, ".", dot + 4 + n2)
}

impl Marker {
    /// Whether a marker of this kind begins at `i`.
    fn at(self, bytes: &[u8], i: usize) -> (r: bool)
        requires
            i < bytes@.len(),
        ensures
            r == self.begins_at(bytes@, i as int),
    {
        let end: usize = bytes.len();
        proof {
            reveal_strlit("ghp_");
            reveal_strlit("gho_");
            reveal_strlit("github_pat_");
            reveal_strlit("sk-");
            reveal_strlit("ant-");
            reveal_strlit("proj-");
            reveal_strlit("xoxb-");
            reveal_strlit("xoxa-");
            reveal_strlit("xoxp-");
            reveal_strlit("xoxr-");
            reveal_strlit("xoxs-");
            reveal_strlit("AKIA");
            reveal_strlit("AIza");
        }
        match self {
            Marker::PrivateKey => is_private_key_at(bytes, i),
            Marker::GithubToken => {
                (prefix_hit(bytes, "ghp_", i) && run_len(bytes, i + 4, Class::Token) >= 20) || (prefix_hit(
                    bytes,
                    "gho_",
                    i,
                ) && run_len(bytes, i + 4, Class::Token) >= 20) || (prefix_hit(bytes, "github_pat_", i) && run_len(
                    bytes,
                    i + 11,
                    Class::Token,
                ) >= 20)
            },
            Marker::SkApiKey => {
                prefix_hit(bytes, "sk-", i) && (run_len(bytes, i + 3, Class::Alnum) >= 20 || (ascii_at(
                    bytes,
                    "ant-",
                    i + 3,
                ) && run_len(bytes, i + 7, Class::TokenDash) >= 20) || (ascii_at(bytes, "proj-", i + 3) && run_len(
                    bytes,
                    i + 8,
                    Class::TokenDash,
                ) >= 20))
            },
            Marker::SlackToken => {
                (prefix_hit(bytes, "xoxb-", i) || prefix_hit(bytes, "xoxa-", i) || prefix_hit(bytes, "xoxp-", i)
                    || prefix_hit(bytes, "xoxr-", i) || prefix_hit(bytes, "xoxs-", i)) && run_len(
                    bytes,
                    i + 5,
                    Class::TokenDash,
                ) >= 10
            },
            Marker::AwsAccessKey => {
                prefix_hit(bytes, "AKIA", i) && run_len(bytes, i + 4, Class::UpperDigit) == 16 && !(i + 20 < end
                    && is_token_char(bytes[i + 20]))
            },
            Marker::GoogleApiKey => {
                prefix_hit(bytes, "AIza", i) && run_len(bytes, i + 4, Class::TokenDash) >= 35
            },
            Marker::Jwt => is_jwt_at(bytes, i),
            Marker::AwsSecretKey => is_aws_secret_at(bytes, i),
            Marker::Password => is_password_at(bytes, i),
        }
    }

    /// Whether the bytes hold a marker of this kind anywhere.
    fn found(self, bytes: &[u8]) -> (r: bool)
        ensures
            r == self.in_bytes(bytes@),
    {
        let mut i: usize = 0;
        while i < bytes.len()
            invariant
                i <= bytes@.len(),
                forall|k: int| 0 <= k < i ==> !#[trigger] self.begins_at(bytes@, k),
            decreases bytes@.len() - i,
        {
            if self.at(bytes, i) {
                return true;
            }
            i = i + 1;
        }
        false
    }
}

/// `Some(kind)` when `text` contains a high-confidence secret marker.
pub fn content_reason(text: &str) -> (r: Option<&'static str>)
    ensures
        label_view(r) == content_label(text@),
{
    let bytes: &[u8] = text.as_bytes();
    if Marker::PrivateKey.found(bytes) {
        return Some("secret-content(private-key)");
    }
    if Marker::GithubToken.found(bytes) {
        return Some("secret-content(github-token)");
    }
    if Marker::SkApiKey.found(bytes) {
        return Some("secret-content(sk-api-key)");
    }
    if Marker::SlackToken.found(bytes) {
        return Some("secret-content(slack-token)");
    }
    if Marker::AwsAccessKey.found(bytes) {
        return Some("secret-content(aws-access-key)");
    }
    if Marker::GoogleApiKey.found(bytes) {
        return Some("secret-content(google-api-key)");
    }
    if Marker::Jwt.found(bytes) {
        return Some("secret-content(jwt)");
    }
    if Marker::AwsSecretKey.found(bytes) {
        return Some("secret-content(aws-secret-key)");
    }
    if Marker::Password.found(bytes) {
        return Some("secret-content(password)");
    }
    None
}

/// What a file's path and text are flagged for: the path decides first.
pub open spec fn secret_label(path: Seq<char>, text: Seq<char>) -> Option<Seq<char>> {
    if path_label(path) is Some {
        path_label(path)
    } else {
        content_label(text)
    }
}

/// `path_reason` first, then, only if the path is clean, `content_reason`.
pub fn reason(path: &str, text: &str) -> (r: Option<&'static str>)
    ensures
        label_view(r) == secret_label(path@, text@),
{
    match path_reason(path) {
        Some(l) => Some(l),
        None => content_reason(text),
    }
}

/// The labels that there are: each names a pattern.
pub open spec fn labels() -> Seq<Seq<char>> {
    seq![
        "secret-path(.env)"@,
        "secret-path(*.pem)"@,
        "secret-path(*.key)"@,
        "secret-path(*.p12)"@,
        "secret-path(*.pfx)"@,
        "secret-path(*.kdbx)"@,
        "secret-path(*.keystore)"@,
        "secret-path(id_rsa*)"@,
        "secret-path(id_ed25519*)"@,
        "secret-path(*credentials*)"@,
        "secret-path(*secret*)"@,
        "secret-content(private-key)"@,
        "secret-content(github-token)"@,
        "secret-content(sk-api-key)"@,
        "secret-content(slack-token)"@,
        "secret-content(aws-access-key)"@,
        "secret-content(google-api-key)"@,
        "secret-content(jwt)"@,
        "secret-content(aws-secret-key)"@,
        "secret-content(password)"@,
    ]
}

proof fn lemma_component_label(comps: Seq<Seq<char>>)
    ensures
        component_label(comps) is Some ==> component_label(comps)->0 == labels()[9] || component_label(comps)->0
            == labels()[10],
    decreases comps.len(),
{
    if comps.len() > 0 {
        lemma_component_label(comps.drop_first());
    }
}

/// Whatever a file is flagged for, the label names the pattern and holds
/// nothing of the file: it is one of a fixed list.
pub proof fn law_label_names_a_pattern(path: Seq<char>, text: Seq<char>)
    requires
        secret_label(path, text) is Some,
    ensures
        labels().contains(secret_label(path, text)->0),
{
    let l = labels();
    let r = secret_label(path, text)->0;
    lemma_component_label(split(ascii_lower_all(path), '/'));
    assert(l[0] == "secret-path(.env)"@ && l[1] == "secret-path(*.pem)"@ && l[2] == "secret-path(*.key)"@);
    assert(l[3] == "secret-path(*.p12)"@ && l[4] == "secret-path(*.pfx)"@ && l[5] == "secret-path(*.kdbx)"@);
    assert(l[6] == "secret-path(*.keystore)"@ && l[7] == "secret-path(id_rsa*)"@);
    assert(l[8] == "secret-path(id_ed25519*)"@);
    assert(l[11] == "secret-content(private-key)"@ && l[12] == "secret-content(github-token)"@);
    assert(l[13] == "secret-content(sk-api-key)"@ && l[14] == "secret-content(slack-token)"@);
    assert(l[15] == "secret-content(aws-access-key)"@ && l[16] == "secret-content(google-api-key)"@);
    assert(l[17] == "secret-content(jwt)"@ && l[18] == "secret-content(aws-secret-key)"@);
    assert(l[19] == "secret-content(password)"@);
    assert(exists|i: int| 0 <= i < l.len() && #[trigger] l[i] == r);
}

/// The case of a path's ASCII letters does not matter.
pub proof fn law_path_case_does_not_matter(a: Seq<char>, b: Seq<char>)
    requires
        same_letters(a, b),
    ensures
        path_label(a) == path_label(b),
{
}

// --- line by line ---

/// Two pieces with a line feed between them.
spec fn two_lines(x: Seq<u8>, y: Seq<u8>) -> Seq<u8> {
    x + seq![0x0au8] + y
}

/// No line feed among the first `n` characters.
spec fn no_feed(p: Seq<char>, n: nat) -> bool
    decreases n,
{
    n == 0 || (p[n - 1] as u32 != 0x0a && no_feed(p, (n - 1) as nat))
}

proof fn lemma_no_feed(p: Seq<char>, n: nat, j: int)
    requires
        no_feed(p, n),
        0 <= j < n,
    ensures
        p[j] as u32 != 0x0a,
    decreases n,
{
    if j < n - 1 {
        lemma_no_feed(p, (n - 1) as nat, j);
    }
}

/// Whether a pattern can only stand on one line.
spec fn is_pattern(p: Seq<char>) -> bool {
    p.len() > 0 && no_feed(p, p.len())
}

proof fn lemma_patterns()
    ensures
        is_pattern("-----BEGIN"@),
        is_pattern("PRIVATE KEY-----"@),
        is_pattern("ghp_"@) && "ghp_"@.len() == 4,
        is_pattern("gho_"@) && "gho_"@.len() == 4,
        is_pattern("github_pat_"@) && "github_pat_"@.len() == 11,
        is_pattern("sk-"@) && "sk-"@.len() == 3,
        is_pattern("ant-"@) && "ant-"@.len() == 4,
        is_pattern("proj-"@) && "proj-"@.len() == 5,
        is_pattern("xoxb-"@) && "xoxb-"@.len() == 5,
        is_pattern("xoxa-"@) && "xoxa-"@.len() == 5,
        is_pattern("xoxp-"@) && "xoxp-"@.len() == 5,
        is_pattern("xoxr-"@) && "xoxr-"@.len() == 5,
        is_pattern("xoxs-"@) && "xoxs-"@.len() == 5,
        is_pattern("AKIA"@) && "AKIA"@.len() == 4,
        is_pattern("AIza"@) && "AIza"@.len() == 4,
        is_pattern("eyJ"@) && "eyJ"@.len() == 3,
        is_pattern(".eyJ"@) && ".eyJ"@.len() == 4,
        is_pattern("."@) && "."@.len() == 1,
        is_pattern("aws_secret"@) && "aws_secret"@.len() == 10,
        is_pattern("password"@) && "password"@.len() == 8,
{
    reveal_strlit("-----BEGIN");
    reveal_strlit("PRIVATE KEY-----");
    reveal_strlit("ghp_");
    reveal_strlit("gho_");
    reveal_strlit("github_pat_");
    reveal_strlit("sk-");
    reveal_strlit("ant-");
    reveal_strlit("proj-");
    reveal_strlit("xoxb-");
    reveal_strlit("xoxa-");
    reveal_strlit("xoxp-");
    reveal_strlit("xoxr-");
    reveal_strlit("xoxs-");
    reveal_strlit("AKIA");
    reveal_strlit("AIza");
    reveal_strlit("eyJ");
    reveal_strlit(".eyJ");
    reveal_strlit(".");
    reveal_strlit("aws_secret");
    reveal_strlit("password");
    reveal_with_fuel(no_feed, 17);
}

// The first line keeps what begins in it.

proof fn lemma_run_left(x: Seq<u8>, y: Seq<u8>, from: int, class: Class)
    requires
        0 <= from <= x.len(),
    ensures
        run(two_lines(x, y), from, class) == run(x, from, class),
        0 <= run(x, from, class) <= x.len() - from,
    decreases x.len() - from,
{
    let c = two_lines(x, y);
    if from < x.len() {
        assert(c[from] == x[from]);
        if class.has(x[from]) {
            lemma_run_left(x, y, from + 1, class);
        }
    } else {
        assert(c[from] == 0x0a);
    }
}

proof fn lemma_at_left(x: Seq<u8>, y: Seq<u8>, p: Seq<char>, i: int)
    requires
        is_pattern(p),
        0 <= i <= x.len(),
    ensures
        bytes_at(two_lines(x, y), p, i) == bytes_at(x, p, i),
        small_bytes_at(two_lines(x, y), p, i) == small_bytes_at(x, p, i),
{
    let c = two_lines(x, y);
    if i + p.len() > x.len() {
        let k = x.len() - i;
        lemma_no_feed(p, p.len(), k);
        assert(c[i + k] == 0x0a);
        assert(p[k] as u32 != c[i + k] as u32);
        assert(p[k] as u32 != small(c[i + k]) as u32);
    } else {
        assert(forall|j: int| 0 <= j < p.len() ==> #[trigger] c[i + j] == x[i + j]);
        if bytes_at(c, p, i) {
            assert forall|j: int| 0 <= j < p.len() implies #[trigger] p[j] as u32 == x[i + j] as u32 by {
                assert(c[i + j] == x[i + j]);
            }
        }
        if bytes_at(x, p, i) {
            assert forall|j: int| 0 <= j < p.len() implies #[trigger] p[j] as u32 == c[i + j] as u32 by {
                assert(c[i + j] == x[i + j]);
            }
        }
        if small_bytes_at(c, p, i) {
            assert forall|j: int| 0 <= j < p.len() implies #[trigger] p[j] as u32 == small(x[i + j]) as u32 by {
                assert(c[i + j] == x[i + j]);
            }
        }
        if small_bytes_at(x, p, i) {
            assert forall|j: int| 0 <= j < p.len() implies #[trigger] p[j] as u32 == small(c[i + j]) as u32 by {
                assert(c[i + j] == x[i + j]);
            }
        }
    }
}

proof fn lemma_word_left(x: Seq<u8>, y: Seq<u8>, p: Seq<char>, i: int, class: Class)
    requires
        is_pattern(p),
        0 <= i < x.len(),
    ensures
        word_at(two_lines(x, y), p, i) == word_at(x, p, i),
        word_at(x, p, i) ==> run(two_lines(x, y), i + p.len(), class) == run(x, i + p.len(), class) && 0 <= run(
            x,
            i + p.len(),
            class,
        ) <= x.len() - i - p.len(),
{
    let c = two_lines(x, y);
    lemma_at_left(x, y, p, i);
    if i > 0 {
        assert(c[i - 1] == x[i - 1]);
    }
    if bytes_at(x, p, i) {
        lemma_run_left(x, y, i + p.len(), class);
    }
}

proof fn lemma_private_key_left(x: Seq<u8>, y: Seq<u8>, i: int)
    requires
        0 <= i < x.len(),
    ensures
        private_key_at(two_lines(x, y), i) == private_key_at(x, i),
{
    let c = two_lines(x, y);
    let n = x.len() as int;
    lemma_patterns();
    lemma_at_left(x, y, "-----BEGIN"@, i);
    if private_key_at(c, i) {
        let j = choose|j: int| i <= j && #[trigger] bytes_at(c, "PRIVATE KEY-----"@, j) && same_line(c, i, j);
        if j > n {
            assert(c[n] == 0x0a);
        }
        lemma_at_left(x, y, "PRIVATE KEY-----"@, j);
        assert forall|k: int| i <= k < j implies #[trigger] x[k] != 0x0a by {
            assert(c[k] == x[k]);
        }
    }
    if private_key_at(x, i) {
        let j = choose|j: int| i <= j && #[trigger] bytes_at(x, "PRIVATE KEY-----"@, j) && same_line(x, i, j);
        lemma_at_left(x, y, "PRIVATE KEY-----"@, j);
        assert forall|k: int| i <= k < j implies #[trigger] c[k] != 0x0a by {
            assert(c[k] == x[k]);
        }
    }
}

proof fn lemma_tokens_left(x: Seq<u8>, y: Seq<u8>, i: int)
    requires
        0 <= i < x.len(),
    ensures
        github_token_at(two_lines(x, y), i) == github_token_at(x, i),
        sk_key_at(two_lines(x, y), i) == sk_key_at(x, i),
        slack_token_at(two_lines(x, y), i) == slack_token_at(x, i),
        google_key_at(two_lines(x, y), i) == google_key_at(x, i),
        aws_access_at(two_lines(x, y), i) == aws_access_at(x, i),
{
    let c = two_lines(x, y);
    let n = x.len() as int;
    lemma_patterns();
    lemma_word_left(x, y, "ghp_"@, i, Class::Token);
    lemma_word_left(x, y, "gho_"@, i, Class::Token);
    lemma_word_left(x, y, "github_pat_"@, i, Class::Token);
    lemma_word_left(x, y, "sk-"@, i, Class::Alnum);
    if word_at(x, "sk-"@, i) {
        lemma_at_left(x, y, "ant-"@, i + 3);
        lemma_at_left(x, y, "proj-"@, i + 3);
        if bytes_at(x, "ant-"@, i + 3) {
            lemma_run_left(x, y, i + 7, Class::TokenDash);
        }
        if bytes_at(x, "proj-"@, i + 3) {
            lemma_run_left(x, y, i + 8, Class::TokenDash);
        }
    }
    lemma_word_left(x, y, "xoxb-"@, i, Class::TokenDash);
    lemma_word_left(x, y, "xoxa-"@, i, Class::TokenDash);
    lemma_word_left(x, y, "xoxp-"@, i, Class::TokenDash);
    lemma_word_left(x, y, "xoxr-"@, i, Class::TokenDash);
    lemma_word_left(x, y, "xoxs-"@, i, Class::TokenDash);
    lemma_word_left(x, y, "AIza"@, i, Class::TokenDash);
    lemma_word_left(x, y, "AKIA"@, i, Class::UpperDigit);
    if word_at(x, "AKIA"@, i) && run(x, i + 4, Class::UpperDigit) == 16 {
        if i + 20 < n {
            assert(c[i + 20] == x[i + 20]);
        } else {
            assert(c[n] == 0x0a);
        }
    }
}

proof fn lemma_jwt_left(x: Seq<u8>, y: Seq<u8>, i: int)
    requires
        0 <= i < x.len(),
    ensures
        jwt_at(two_lines(x, y), i) == jwt_at(x, i),
{
    lemma_patterns();
    lemma_word_left(x, y, "eyJ"@, i, Class::TokenDash);
    if word_at(x, "eyJ"@, i) {
        let n1 = run(x, i + 3, Class::TokenDash);
        let dot = i + 3 + n1;
        lemma_at_left(x, y, ".eyJ"@, dot);
        if bytes_at(x, ".eyJ"@, dot) {
            lemma_run_left(x, y, dot + 4, Class::TokenDash);
            let n2 = run(x, dot + 4, Class::TokenDash);
            lemma_at_left(x, y, "."@, dot + 4 + n2);
        }
    }
}

proof fn lemma_forty_left(x: Seq<u8>, y: Seq<u8>, j: int)
    requires
        0 < j < x.len(),
    ensures
        forty_key_bytes(two_lines(x, y), j) == forty_key_bytes(x, j),
{
    let c = two_lines(x, y);
    lemma_run_left(x, y, j, Class::KeyByte);
    assert(c[j - 1] == x[j - 1]);
    if run(x, j, Class::KeyByte) == 40 {
        if j + 40 < x.len() {
            assert(c[j + 40] == x[j + 40]);
        } else {
            assert(c[x.len() as int] == 0x0a);
        }
    }
}

proof fn lemma_aws_secret_left(x: Seq<u8>, y: Seq<u8>, i: int)
    requires
        0 <= i < x.len(),
    ensures
        aws_secret_at(two_lines(x, y), i) == aws_secret_at(x, i),
{
    let c = two_lines(x, y);
    lemma_patterns();
    lemma_at_left(x, y, "aws_secret"@, i);
    if small_bytes_at(x, "aws_secret"@, i) {
        lemma_run_left(x, y, i + 10, Class::Label);
        if aws_secret_at(c, i) {
            let j = choose|j: int|
                {
                    &&& i + 10 <= j < i + 80
                    &&& j < c.len()
                    &&& j - (i + 10) < run(c, i + 10, Class::Label)
                    &&& #[trigger] forty_key_bytes(c, j)
                };
            lemma_forty_left(x, y, j);
        }
        if aws_secret_at(x, i) {
            let j = choose|j: int|
                {
                    &&& i + 10 <= j < i + 80
                    &&& j < x.len()
                    &&& j - (i + 10) < run(x, i + 10, Class::Label)
                    &&& #[trigger] forty_key_bytes(x, j)
                };
            lemma_forty_left(x, y, j);
        }
    }
}

proof fn lemma_literal_left(r: Seq<u8>, y: Seq<u8>)
    ensures
        literal_value(two_lines(r, y)) == literal_value(r),
{
    let c = two_lines(r, y);
    assert(c[r.len() as int] == 0x0a);
    lemma_run_left(r, y, 0, Class::Bare);
    if r.len() == 0 {
        assert(run(c, 0, Class::Bare) == 0);
    } else {
        assert(c[0] == r[0]);
        if r[0] == 0x22 || r[0] == 0x27 {
            lemma_run_left(r, y, 1, Class::Quoted(r[0]));
            let k = run(r, 1, Class::Quoted(r[0]));
            if 1 + k < r.len() {
                assert(c[1 + k] == r[1 + k]);
            }
            if k >= 1 {
                assert(c[1] == r[1]);
            }
        } else {
            let k = run(r, 0, Class::Bare);
            assert(c.take(k) =~= r.take(k));
        }
    }
}

proof fn lemma_password_left(x: Seq<u8>, y: Seq<u8>, i: int)
    requires
        0 <= i < x.len(),
    ensures
        password_at(two_lines(x, y), i) == password_at(x, i),
{
    let c = two_lines(x, y);
    let n = x.len() as int;
    lemma_patterns();
    lemma_at_left(x, y, "password"@, i);
    assert(c[n] == 0x0a);
    if small_bytes_at(x, "password"@, i) {
        if i + 8 < n {
            assert(c[i + 8] == x[i + 8]);
        }
        lemma_run_left(x, y, i + 8, Class::BlankQuote);
        let sep = i + 8 + run(x, i + 8, Class::BlankQuote);
        if sep < n {
            assert(c[sep] == x[sep]);
            if sep + 1 < n {
                assert(c[sep + 1] == x[sep + 1]);
            }
            lemma_run_left(x, y, sep + 1, Class::Blank);
            let val = sep + 1 + run(x, sep + 1, Class::Blank);
            assert(c.skip(val) =~= two_lines(x.skip(val), y));
            lemma_literal_left(x.skip(val), y);
        }
    }
}

// The second line keeps what begins in it.

proof fn lemma_run_right(x: Seq<u8>, y: Seq<u8>, from: int, class: Class)
    requires
        0 <= from,
    ensures
        run(two_lines(x, y), x.len() + 1 + from, class) == run(y, from, class),
        0 <= run(y, from, class),
    decreases y.len() - from,
{
    let c = two_lines(x, y);
    if from < y.len() {
        assert(c[x.len() + 1 + from] == y[from]);
        if class.has(y[from]) {
            lemma_run_right(x, y, from + 1, class);
        }
    }
}

proof fn lemma_at_right(x: Seq<u8>, y: Seq<u8>, p: Seq<char>, i: int)
    requires
        0 <= i,
    ensures
        bytes_at(two_lines(x, y), p, x.len() + 1 + i) == bytes_at(y, p, i),
        small_bytes_at(two_lines(x, y), p, x.len() + 1 + i) == small_bytes_at(y, p, i),
{
    let c = two_lines(x, y);
    let s = x.len() + 1 + i;
    if i + p.len() <= y.len() {
        assert(forall|j: int| 0 <= j < p.len() ==> #[trigger] c[s + j] == y[i + j]);
        if bytes_at(c, p, s) {
            assert forall|j: int| 0 <= j < p.len() implies #[trigger] p[j] as u32 == y[i + j] as u32 by {
                assert(c[s + j] == y[i + j]);
            }
        }
        if bytes_at(y, p, i) {
            assert forall|j: int| 0 <= j < p.len() implies #[trigger] p[j] as u32 == c[s + j] as u32 by {
                assert(c[s + j] == y[i + j]);
            }
        }
        if small_bytes_at(c, p, s) {
            assert forall|j: int| 0 <= j < p.len() implies #[trigger] p[j] as u32 == small(y[i + j]) as u32 by {
                assert(c[s + j] == y[i + j]);
            }
        }
        if small_bytes_at(y, p, i) {
            assert forall|j: int| 0 <= j < p.len() implies #[trigger] p[j] as u32 == small(c[s + j]) as u32 by {
                assert(c[s + j] == y[i + j]);
            }
        }
    }
}

proof fn lemma_word_right(x: Seq<u8>, y: Seq<u8>, p: Seq<char>, i: int, class: Class)
    requires
        0 <= i < y.len(),
    ensures
        word_at(two_lines(x, y), p, x.len() + 1 + i) == word_at(y, p, i),
        run(two_lines(x, y), x.len() + 1 + i + p.len(), class) == run(y, i + p.len(), class),
        0 <= run(y, i + p.len(), class),
{
    let c = two_lines(x, y);
    lemma_at_right(x, y, p, i);
    if i > 0 {
        assert(c[x.len() + i] == y[i - 1]);
    } else {
        assert(c[x.len() as int] == 0x0a);
    }
    lemma_run_right(x, y, i + p.len(), class);
}

proof fn lemma_private_key_right(x: Seq<u8>, y: Seq<u8>, i: int)
    requires
        0 <= i < y.len(),
    ensures
        private_key_at(two_lines(x, y), x.len() + 1 + i) == private_key_at(y, i),
{
    let c = two_lines(x, y);
    let s = x.len() + 1;
    lemma_at_right(x, y, "-----BEGIN"@, i);
    if private_key_at(c, s + i) {
        let j = choose|j: int|
            s + i <= j && #[trigger] bytes_at(c, "PRIVATE KEY-----"@, j) && same_line(c, s + i, j);
        lemma_at_right(x, y, "PRIVATE KEY-----"@, j - s);
        assert forall|k: int| i <= k < j - s implies #[trigger] y[k] != 0x0a by {
            assert(c[s + k] == y[k]);
        }
    }
    if private_key_at(y, i) {
        let j = choose|j: int| i <= j && #[trigger] bytes_at(y, "PRIVATE KEY-----"@, j) && same_line(y, i, j);
        lemma_at_right(x, y, "PRIVATE KEY-----"@, j);
        assert forall|k: int| s + i <= k < s + j implies #[trigger] c[k] != 0x0a by {
            assert(c[k] == y[k - s]);
        }
        assert(bytes_at(c, "PRIVATE KEY-----"@, s + j));
    }
}

proof fn lemma_tokens_right(x: Seq<u8>, y: Seq<u8>, i: int)
    requires
        0 <= i < y.len(),
    ensures
        github_token_at(two_lines(x, y), x.len() + 1 + i) == github_token_at(y, i),
        sk_key_at(two_lines(x, y), x.len() + 1 + i) == sk_key_at(y, i),
        slack_token_at(two_lines(x, y), x.len() + 1 + i) == slack_token_at(y, i),
        google_key_at(two_lines(x, y), x.len() + 1 + i) == google_key_at(y, i),
        aws_access_at(two_lines(x, y), x.len() + 1 + i) == aws_access_at(y, i),
{
    let c = two_lines(x, y);
    lemma_patterns();
    lemma_word_right(x, y, "ghp_"@, i, Class::Token);
    lemma_word_right(x, y, "gho_"@, i, Class::Token);
    lemma_word_right(x, y, "github_pat_"@, i, Class::Token);
    lemma_word_right(x, y, "sk-"@, i, Class::Alnum);
    lemma_at_right(x, y, "ant-"@, i + 3);
    lemma_at_right(x, y, "proj-"@, i + 3);
    lemma_run_right(x, y, i + 7, Class::TokenDash);
    lemma_run_right(x, y, i + 8, Class::TokenDash);
    lemma_word_right(x, y, "xoxb-"@, i, Class::TokenDash);
    lemma_word_right(x, y, "xoxa-"@, i, Class::TokenDash);
    lemma_word_right(x, y, "xoxp-"@, i, Class::TokenDash);
    lemma_word_right(x, y, "xoxr-"@, i, Class::TokenDash);
    lemma_word_right(x, y, "xoxs-"@, i, Class::TokenDash);
    lemma_word_right(x, y, "AIza"@, i, Class::TokenDash);
    lemma_word_right(x, y, "AKIA"@, i, Class::UpperDigit);
    if i + 20 < y.len() {
        assert(c[x.len() + 1 + i + 20] == y[i + 20]);
    }
}

proof fn lemma_jwt_right(x: Seq<u8>, y: Seq<u8>, i: int)
    requires
        0 <= i < y.len(),
    ensures
        jwt_at(two_lines(x, y), x.len() + 1 + i) == jwt_at(y, i),
{
    lemma_patterns();
    lemma_word_right(x, y, "eyJ"@, i, Class::TokenDash);
    let dot = i + 3 + run(y, i + 3, Class::TokenDash);
    lemma_at_right(x, y, ".eyJ"@, dot);
    lemma_run_right(x, y, dot + 4, Class::TokenDash);
    lemma_at_right(x, y, "."@, dot + 4 + run(y, dot + 4, Class::TokenDash));
}

proof fn lemma_forty_right(x: Seq<u8>, y: Seq<u8>, j: int)
    requires
        0 < j < y.len(),
    ensures
        forty_key_bytes(two_lines(x, y), x.len() + 1 + j) == forty_key_bytes(y, j),
{
    let c = two_lines(x, y);
    lemma_run_right(x, y, j, Class::KeyByte);
    assert(c[x.len() + j] == y[j - 1]);
    if j + 40 < y.len() {
        assert(c[x.len() + 1 + j + 40] == y[j + 40]);
    }
}

proof fn lemma_aws_secret_right(x: Seq<u8>, y: Seq<u8>, i: int)
    requires
        0 <= i < y.len(),
    ensures
        aws_secret_at(two_lines(x, y), x.len() + 1 + i) == aws_secret_at(y, i),
{
    let c = two_lines(x, y);
    let s = x.len() + 1;
    lemma_at_right(x, y, "aws_secret"@, i);
    lemma_run_right(x, y, i + 10, Class::Label);
    if aws_secret_at(c, s + i) {
        let j = choose|j: int|
            {
                &&& s + i + 10 <= j < s + i + 80
                &&& j < c.len()
                &&& j - (s + i + 10) < run(c, s + i + 10, Class::Label)
                &&& #[trigger] forty_key_bytes(c, j)
            };
        lemma_forty_right(x, y, j - s);
    }
    if aws_secret_at(y, i) {
        let j = choose|j: int|
            {
                &&& i + 10 <= j < i + 80
                &&& j < y.len()
                &&& j - (i + 10) < run(y, i + 10, Class::Label)
                &&& #[trigger] forty_key_bytes(y, j)
            };
        lemma_forty_right(x, y, j);
        assert(forty_key_bytes(c, s + j));
    }
}

proof fn lemma_password_right(x: Seq<u8>, y: Seq<u8>, i: int)
    requires
        0 <= i < y.len(),
    ensures
        password_at(two_lines(x, y), x.len() + 1 + i) == password_at(y, i),
{
    let c = two_lines(x, y);
    let s = x.len() + 1;
    lemma_at_right(x, y, "password"@, i);
    if i + 8 < y.len() {
        assert(c[s + i + 8] == y[i + 8]);
    }
    lemma_run_right(x, y, i + 8, Class::BlankQuote);
    let sep = i + 8 + run(y, i + 8, Class::BlankQuote);
    if sep < y.len() {
        assert(c[s + sep] == y[sep]);
        if sep + 1 < y.len() {
            assert(c[s + sep + 1] == y[sep + 1]);
        }
        lemma_run_right(x, y, sep + 1, Class::Blank);
        lemma_run_bound(y, sep + 1, Class::Blank);
        let val = sep + 1 + run(y, sep + 1, Class::Blank);
        assert(c.skip(s + val) =~= y.skip(val));
    }
}

proof fn lemma_run_bound(b: Seq<u8>, from: int, class: Class)
    requires
        0 <= from <= b.len(),
    ensures
        0 <= run(b, from, class) <= b.len() - from,
    decreases b.len() - from,
{
    if from < b.len() && class.has(b[from]) {
        lemma_run_bound(b, from + 1, class);
    }
}

proof fn lemma_marker_lines(m: Marker, x: Seq<u8>, y: Seq<u8>)
    ensures
        m.in_bytes(two_lines(x, y)) <==> m.in_bytes(x) || m.in_bytes(y),
{
    let c = two_lines(x, y);
    let s = x.len() + 1;
    assert forall|i: int| 0 <= i < x.len() implies #[trigger] m.begins_at(x, i) == m.begins_at(c, i) by {
        lemma_private_key_left(x, y, i);
        lemma_tokens_left(x, y, i);
        lemma_jwt_left(x, y, i);
        lemma_aws_secret_left(x, y, i);
        lemma_password_left(x, y, i);
    }
    assert forall|i: int| 0 <= i < y.len() implies #[trigger] m.begins_at(y, i) == m.begins_at(c, s + i) by {
        lemma_private_key_right(x, y, i);
        lemma_tokens_right(x, y, i);
        lemma_jwt_right(x, y, i);
        lemma_aws_secret_right(x, y, i);
        lemma_password_right(x, y, i);
    }
    if m.in_bytes(c) {
        let i = choose|i: int| 0 <= i < c.len() && #[trigger] m.begins_at(c, i);
        if i < x.len() {
            assert(m.begins_at(x, i));
        } else if i == x.len() {
            lemma_nothing_begins_at_the_feed(m, x, y);
        } else {
            assert(m.begins_at(y, i - s));
        }
    }
    if m.in_bytes(x) {
        let i = choose|i: int| 0 <= i < x.len() && #[trigger] m.begins_at(x, i);
        assert(m.begins_at(c, i));
    }
    if m.in_bytes(y) {
        let i = choose|i: int| 0 <= i < y.len() && #[trigger] m.begins_at(y, i);
        assert(m.begins_at(c, s + i));
    }
}

proof fn lemma_nothing_begins_at_the_feed(m: Marker, x: Seq<u8>, y: Seq<u8>)
    ensures
        !m.begins_at(two_lines(x, y), x.len() as int),
{
    let n = x.len() as int;
    lemma_patterns();
    lemma_at_left(x, y, "-----BEGIN"@, n);
    lemma_at_left(x, y, "ghp_"@, n);
    lemma_at_left(x, y, "gho_"@, n);
    lemma_at_left(x, y, "github_pat_"@, n);
    lemma_at_left(x, y, "sk-"@, n);
    lemma_at_left(x, y, "xoxb-"@, n);
    lemma_at_left(x, y, "xoxa-"@, n);
    lemma_at_left(x, y, "xoxp-"@, n);
    lemma_at_left(x, y, "xoxr-"@, n);
    lemma_at_left(x, y, "xoxs-"@, n);
    lemma_at_left(x, y, "AKIA"@, n);
    lemma_at_left(x, y, "AIza"@, n);
    lemma_at_left(x, y, "eyJ"@, n);
    lemma_at_left(x, y, "aws_secret"@, n);
    lemma_at_left(x, y, "password"@, n);
}

proof fn lemma_encode_concat(a: Seq<char>, b: Seq<char>)
    ensures
        vstd::utf8::encode_utf8(a + b) == vstd::utf8::encode_utf8(a) + vstd::utf8::encode_utf8(b),
    decreases a.len(),
{
    if a.len() == 0 {
        assert(a + b =~= b);
        assert(vstd::utf8::encode_utf8(a + b) =~= vstd::utf8::encode_utf8(a) + vstd::utf8::encode_utf8(b));
    } else {
        lemma_encode_concat(a.drop_first(), b);
        assert((a + b).drop_first() =~= a.drop_first() + b);
        assert(vstd::utf8::encode_utf8(a + b) =~= vstd::utf8::encode_utf8(a) + vstd::utf8::encode_utf8(b));
    }
}

/// A line break between two texts neither hides a secret marker nor makes one:
/// every line is looked at for itself.
pub proof fn law_line_breaks_hide_nothing(a: Seq<char>, b: Seq<char>)
    ensures
        content_label(a + "\n"@ + b) is Some <==> content_label(a) is Some || content_label(b) is Some,
{
    let x = vstd::utf8::encode_utf8(a);
    let y = vstd::utf8::encode_utf8(b);
    reveal_strlit("\n");
    lemma_encode_concat(a, "\n"@);
    lemma_encode_concat(a + "\n"@, b);
    vstd::utf8::is_ascii_chars_encode_utf8("\n"@);
    assert(vstd::utf8::encode_utf8("\n"@) =~= seq![0x0au8]);
    lemma_marker_lines(Marker::PrivateKey, x, y);
    lemma_marker_lines(Marker::GithubToken, x, y);
    lemma_marker_lines(Marker::SkApiKey, x, y);
    lemma_marker_lines(Marker::SlackToken, x, y);
    lemma_marker_lines(Marker::AwsAccessKey, x, y);
    lemma_marker_lines(Marker::GoogleApiKey, x, y);
    lemma_marker_lines(Marker::Jwt, x, y);
    lemma_marker_lines(Marker::AwsSecretKey, x, y);
    lemma_marker_lines(Marker::Password, x, y);
}

} // verus!
