//! Module and repository summaries, made bottom-up from the summaries of what
//! lies below.
//!
//! A module is a directory at depth one or two that has an indexed file
//! somewhere under it; the repository, `/`, is one as long as it has any file.
//! A module's children are the files under it (at depth two), or the modules
//! and files directly in it (at depth one); the repository's are its root files
//! and its depth-one modules.

use sha2::{Digest, Sha256};
use vstd::prelude::*;

use crate::order::{before, sort_texts, sorted, text_before};
use crate::text::{
    chars_of, copy_of, head, join, joined, joined_texts, last_position, lemma_texts_push, push_all, push_text, rfind,
    same_text, split_on, split_text, string_of, texts, trim, trim_end, trimmed, trimmed_end, views, words, words_of,
};

verus! {

// --- the lead of a summary ---

/// How many characters of a summary its memory mirrors.
pub const MIRROR_LEAD_CHARS: usize = 600;

/// What ends a sentence.
pub open spec fn is_stop(c: char) -> bool {
    c == '.' || c == '!' || c == '?'
}

/// The end of the last sentence that ends within the first `n` characters of
/// `s`, or 0 where none does: behind a stop with a space or nothing after it.
pub open spec fn last_stop(s: Seq<char>, n: int) -> int
    decreases n,
{
    if n <= 0 {
        0
    } else if is_stop(s[n - 1]) && (n == s.len() || s[n] == ' ') {
        n
    } else {
        last_stop(s, n - 1)
    }
}

/// A text with its white space collapsed, cut to the cap: behind its last
/// sentence there, or, where none ends there, at the last space and with an
/// ellipsis.
pub open spec fn capped(para: Seq<char>) -> Seq<char> {
    let w = join(words(para), " "@);
    if w.len() <= MIRROR_LEAD_CHARS {
        w
    } else {
        let c = w.take(MIRROR_LEAD_CHARS as int);
        let k = last_stop(c, c.len() as int);
        if k > 0 {
            c.take(k)
        } else {
            let b = w.take(MIRROR_LEAD_CHARS - 1);
            let e = rfind(b, " "@);
            trim_end(
                if e >= 0 {
                    b.take(e)
                } else {
                    b
                },
            ) + "\u{2026}"@
        }
    }
}

/// The lead of a text: its first paragraph, capped.
pub open spec fn lead(text: Seq<char>) -> Seq<char> {
    capped(trim(split_on(trim(text), "\n\n"@)[0]))
}

proof fn lemma_last_stop(s: Seq<char>, n: int)
    requires
        n <= s.len(),
    ensures
        0 <= last_stop(s, n),
        n >= 0 ==> last_stop(s, n) <= n,
    decreases n,
{
    if n > 0 && !(is_stop(s[n - 1]) && (n == s.len() || s[n] == ' ')) {
        lemma_last_stop(s, n - 1);
    }
}

proof fn lemma_trim_end_len(s: Seq<char>)
    ensures
        trim_end(s).len() <= s.len(),
    decreases s.len(),
{
    if s.len() > 0 && crate::text::is_space(s.last()) {
        lemma_trim_end_len(s.drop_last());
    }
}

/// A lead never exceeds the cap, with its ellipsis.
pub proof fn law_lead_fits_the_cap(para: Seq<char>)
    ensures
        capped(para).len() <= MIRROR_LEAD_CHARS,
{
    let w = join(words(para), " "@);
    if w.len() > MIRROR_LEAD_CHARS {
        let c = w.take(MIRROR_LEAD_CHARS as int);
        lemma_last_stop(c, c.len() as int);
        let b = w.take(MIRROR_LEAD_CHARS - 1);
        crate::text::lemma_rfind_upto(b, " "@, b.len() - " "@.len());
        let e = rfind(b, " "@);
        lemma_trim_end_len(
            if e >= 0 {
                b.take(e)
            } else {
                b
            },
        );
        reveal_strlit("\u{2026}");
    }
}

/// Collapses the white space of a text and cuts it to the cap.
fn lead_capped(para: &[char]) -> (r: String)
    ensures
        r@ == capped(para@),
{
    let ws = words_of(para);
    let w = joined(&ws, " ");
    if w.len() <= MIRROR_LEAD_CHARS {
        return string_of(w.as_slice());
    }
    let c = head(w.as_slice(), MIRROR_LEAD_CHARS);
    let mut n: usize = c.len();
    while n > 0
        invariant
            n <= c@.len(),
            last_stop(c@, n as int) == last_stop(c@, c@.len() as int),
            w@.len() > MIRROR_LEAD_CHARS,
            w@ == join(words(para@), " "@),
            c@ == w@.take(MIRROR_LEAD_CHARS as int),
        decreases n,
    {
        let b: char = c[n - 1];
        if (b == '.' || b == '!' || b == '?') && (n == c.len() || c[n] == ' ') {
            return string_of(head(c, n));
        }
        n = n - 1;
    }
    let b = head(w.as_slice(), MIRROR_LEAD_CHARS - 1);
    let kept: &[char] = match last_position(b, " ") {
        Some(e) => head(b, e),
        None => b,
    };
    let mut out = copy_of(trimmed_end(kept));
    push_text(&mut out, "\u{2026}");
    string_of(out.as_slice())
}

/// The first paragraph of a text, cut to what a memory mirrors.
pub fn lead_of(text: &str) -> (r: String)
    ensures
        r@ == lead(text@),
{
    let tc = chars_of(text);
    proof {
        reveal_strlit("\n\n");
    }
    let paras = split_text(trimmed(tc.as_slice()), "\n\n");
    assert(views(paras@).len() > 0);
    assert(views(paras@).len() == paras@.len());
    assert(views(paras@)[0] == paras@[0]@);
    lead_capped(trimmed(paras[0]))
}

/// The whole text, its paragraphs run together, cut to what a memory mirrors.
pub fn lead_across_paragraphs(text: &str) -> (r: String)
    ensures
        r@ == capped(trim(text@)),
{
    let tc = chars_of(text);
    lead_capped(trimmed(tc.as_slice()))
}

/// What the memory of a directory's summary says: whose it is, the summary's
/// lead, and where the whole of it is found.
pub open spec fn mirror(project: Seq<char>, dir: Seq<char>, level: Seq<char>, text: Seq<char>) -> Seq<char> {
    (if level == "repo"@ {
        project + " architecture: "@
    } else {
        project + " "@ + dir + ": "@
    }) + lead(text) + " (full: mach kb ask --project "@ + project + " \u{2026} overview "@ + dir + ")"@
}

/// What the memory of a directory's summary says.
pub fn mirror_content(project: &str, dir: &str, level: &str, text: &str) -> (r: String)
    ensures
        r@ == mirror(project@, dir@, level@, text@),
{
    let lead_text = lead_of(text);
    let mut s = chars_of(project);
    if same_text(level, "repo") {
        push_text(&mut s, " architecture: ");
    } else {
        push_text(&mut s, " ");
        push_text(&mut s, dir);
        push_text(&mut s, ": ");
    }
    push_text(&mut s, lead_text.as_str());
    push_text(&mut s, " (full: mach kb ask --project ");
    push_text(&mut s, project);
    push_text(&mut s, " \u{2026} overview ");
    push_text(&mut s, dir);
    push_text(&mut s, ")");
    string_of(s.as_slice())
}

// --- the digest of what a summary is made of ---

/// A child's summary: its path, the digest of what it is of, and its text.
#[derive(Debug, Clone)]
pub struct ChildSummary {
    pub path: String,
    pub digest: String,
    pub text: String,
}

/// What a child's summary holds.
pub ghost struct ChildView {
    pub path: Seq<char>,
    pub digest: Seq<char>,
    pub text: Seq<char>,
}

impl View for ChildSummary {
    type V = ChildView;

    open spec fn view(&self) -> ChildView {
        ChildView { path: self.path@, digest: self.digest@, text: self.text@ }
    }
}

impl ChildSummary {
    pub fn copied(&self) -> (r: ChildSummary)
        ensures
            r@ == self@,
    {
        ChildSummary { path: self.path.clone(), digest: self.digest.clone(), text: self.text.clone() }
    }
}

pub open spec fn children_view(v: Seq<ChildSummary>) -> Seq<ChildView> {
    Seq::new(v.len(), |i: int| v[i]@)
}

/// The SHA-256 digest of a text's bytes.
pub uninterp spec fn sha256_of(data: Seq<u8>) -> Seq<u8>;

/// `Sha256::digest` of the `sha2` crate: the SHA-256 digest of the bytes, which
/// depends on them alone and has 32 bytes.
#[verifier::external_body]
fn sha256(data: &[u8]) -> (r: Vec<u8>)
    ensures
        r@ == sha256_of(data@),
        r@.len() == 32,
{
    Sha256::digest(data).to_vec()
}

/// A digit of a hexadecimal numeral.
pub open spec fn hex_digit(d: int) -> char {
    if d < 10 {
        crate::numeral::digit(d)
    } else if d == 10 {
        'a'
    } else if d == 11 {
        'b'
    } else if d == 12 {
        'c'
    } else if d == 13 {
        'd'
    } else if d == 14 {
        'e'
    } else {
        'f'
    }
}

/// Bytes in small hexadecimal digits, two for each.
pub open spec fn hex(b: Seq<u8>) -> Seq<char>
    decreases b.len(),
{
    if b.len() == 0 {
        Seq::empty()
    } else {
        hex(b.drop_last()).push(hex_digit(b.last() as int / 16)).push(hex_digit(b.last() as int % 16))
    }
}

fn hex_char(d: u8) -> (c: char)
    requires
        d < 16,
    ensures
        c == hex_digit(d as int),
{
    if d < 10 {
        (d + 0x30) as char
    } else if d == 10 {
        'a'
    } else if d == 11 {
        'b'
    } else if d == 12 {
        'c'
    } else if d == 13 {
        'd'
    } else if d == 14 {
        'e'
    } else {
        'f'
    }
}

/// Writes bytes in small hexadecimal digits.
pub fn to_hex(b: &[u8]) -> (r: String)
    ensures
        r@ == hex(b@),
        r@.len() == 2 * b@.len(),
{
    let mut out: Vec<char> = Vec::new();
    let mut i: usize = 0;
    assert(out@ =~= hex(b@.take(0)));
    while i < b.len()
        invariant
            i <= b@.len(),
            out@ == hex(b@.take(i as int)),
            out@.len() == 2 * i,
        decreases b@.len() - i,
    {
        assert(b@.take(i + 1).drop_last() =~= b@.take(i as int));
        out.push(hex_char(b[i] / 16));
        out.push(hex_char(b[i] % 16));
        i = i + 1;
    }
    assert(b@.take(i as int) =~= b@);
    string_of(out.as_slice())
}

/// The line that stands for a child in its parent's digest.
pub open spec fn child_line(c: ChildView) -> Seq<char> {
    c.path + ":"@ + c.digest
}

pub open spec fn child_lines(cs: Seq<ChildView>) -> Seq<Seq<char>> {
    Seq::new(cs.len(), |i: int| child_line(cs[i]))
}

/// What is hashed of the children: their lines in order.
pub open spec fn digest_text(cs: Seq<ChildView>) -> Seq<char> {
    join(sorted(child_lines(cs)), "\n"@)
}

/// The digest of the children.
pub open spec fn digest_of(cs: Seq<ChildView>) -> Seq<char> {
    hex(sha256_of(vstd::utf8::encode_utf8(digest_text(cs))))
}

/// The order in which the children are given does not matter to their digest.
pub proof fn law_digest_ignores_order(a: Seq<ChildView>, b: Seq<ChildView>)
    requires
        child_lines(a).to_multiset() == child_lines(b).to_multiset(),
    ensures
        digest_of(a) == digest_of(b),
{
    crate::order::lemma_sorted_ignores_order(child_lines(a), child_lines(b));
}

/// The text that the children's digest is of.
pub fn digest_input(children: &Vec<ChildSummary>) -> (r: String)
    ensures
        r@ == digest_text(children_view(children@)),
{
    let ghost cv = children_view(children@);
    let mut ls: Vec<String> = Vec::new();
    let mut i: usize = 0;
    assert(texts(ls@) =~= child_lines(cv.take(0)));
    while i < children.len()
        invariant
            i <= children@.len(),
            cv == children_view(children@),
            texts(ls@) == child_lines(cv.take(i as int)),
        decreases children@.len() - i,
    {
        let mut l = chars_of(children[i].path.as_str());
        push_text(&mut l, ":");
        push_text(&mut l, children[i].digest.as_str());
        let line = string_of(l.as_slice());
        proof {
            lemma_texts_push(ls@, line);
            assert(child_lines(cv.take(i + 1)) =~= child_lines(cv.take(i as int)).push(child_line(cv[i as int])));
        }
        ls.push(line);
        i = i + 1;
    }
    assert(cv.take(i as int) =~= cv);
    let sorted_lines = sort_texts(&ls);
    let all = joined_texts(&sorted_lines, "\n");
    string_of(all.as_slice())
}

/// The digest of the children: the SHA-256 of their lines in order, so it is
/// the same whatever order they come in.
pub fn children_digest(children: &Vec<ChildSummary>) -> (r: String)
    ensures
        r@ == digest_of(children_view(children@)),
        r@.len() == 64,
{
    let input = digest_input(children);
    let d = sha256(input.as_str().as_bytes());
    to_hex(d.as_slice())
}

// --- the prompt ---

/// How many characters of its children's summaries a prompt shows.
pub const MODULE_PROMPT_CHILD_CHARS: usize = 30_000;

/// What a prompt says of a child.
pub open spec fn child_block(c: ChildView) -> Seq<char> {
    c.path + ":\n"@ + c.text + "\n"@
}

/// How many characters the children's blocks have together.
pub open spec fn blocks_len(cs: Seq<ChildView>) -> int
    decreases cs.len(),
{
    if cs.len() == 0 {
        0
    } else {
        blocks_len(cs.drop_last()) + child_block(cs.last()).len()
    }
}

/// Whether the `i`-th child has the longest block; among equals the last.
pub open spec fn is_longest(cs: Seq<ChildView>, i: int) -> bool {
    &&& 0 <= i < cs.len()
    &&& forall|j: int|
        0 <= j < cs.len() ==> child_block(#[trigger] cs[j]).len() < child_block(cs[i]).len() || (child_block(
            cs[j],
        ).len() == child_block(cs[i]).len() && j <= i)
}

/// The index of the child with the longest block.
pub open spec fn longest(cs: Seq<ChildView>) -> int {
    choose|i: int| is_longest(cs, i)
}

/// The children that fit into a prompt: the longest is dropped until they do.
pub open spec fn fitting(cs: Seq<ChildView>) -> Seq<ChildView>
    decreases cs.len(),
{
    let i = longest(cs);
    if blocks_len(cs) <= MODULE_PROMPT_CHILD_CHARS || !is_longest(cs, i) {
        cs
    } else {
        fitting(cs.remove(i))
    }
}

/// `s` with `x` behind every child whose path does not come after its own.
pub open spec fn place_child(s: Seq<ChildView>, x: ChildView) -> Seq<ChildView>
    decreases s.len(),
{
    if s.len() > 0 && before(x.path, s.last().path) {
        place_child(s.drop_last(), x).push(s.last())
    } else {
        s.push(x)
    }
}

/// The children ordered by path.
pub open spec fn by_path(cs: Seq<ChildView>) -> Seq<ChildView>
    decreases cs.len(),
{
    if cs.len() == 0 {
        Seq::empty()
    } else {
        place_child(by_path(cs.drop_last()), cs.last())
    }
}

/// The blocks of the children, each with an empty line behind it.
pub open spec fn blocks(cs: Seq<ChildView>) -> Seq<char>
    decreases cs.len(),
{
    if cs.len() == 0 {
        Seq::empty()
    } else {
        blocks(cs.drop_last()) + child_block(cs.last()) + "\n"@
    }
}

/// What every module prompt says before it asks.
pub const MODULE_PROMPT_RULE: &'static str = "You have no tools and cannot read files. Answer only from the summaries above.\n";

/// What is asked of the whole repository.
pub const REPO_PROMPT_TAIL: &'static str = "Reply with at most 350 words: an architecture overview of the whole project.\n";

/// What is asked of a module.
pub const MODULE_PROMPT_TAIL: &'static str = "Reply with at most 250 words: the purpose of this module, its main components and how they interact, key flows, extension points, and gotchas.\n";

/// The prompt for a module's summary.
pub open spec fn module_prompt(project: Seq<char>, dir: Seq<char>, is_repo: bool, cs: Seq<ChildView>) -> Seq<char> {
    "Project: "@ + project + "\nModule: "@ + dir + "\n\n"@ + blocks(by_path(fitting(cs))) + MODULE_PROMPT_RULE@ + (
    if is_repo {
        REPO_PROMPT_TAIL@
    } else {
        MODULE_PROMPT_TAIL@
    })
}

proof fn lemma_longest_unique(cs: Seq<ChildView>, i: int)
    requires
        is_longest(cs, i),
    ensures
        longest(cs) == i,
{
    let j = longest(cs);
    assert(is_longest(cs, j));
    assert(child_block(cs[i]).len() <= child_block(cs[j]).len());
    assert(child_block(cs[j]).len() <= child_block(cs[i]).len());
}

/// What a prompt shows of the children fits, unless none is left to drop.
pub proof fn law_prompt_children_fit(cs: Seq<ChildView>)
    ensures
        blocks_len(fitting(cs)) <= MODULE_PROMPT_CHILD_CHARS,
    decreases cs.len(),
{
    let i = longest(cs);
    if blocks_len(cs) > MODULE_PROMPT_CHILD_CHARS {
        lemma_some_longest(cs, cs.len() as int);
        assert(is_longest(cs, i));
        law_prompt_children_fit(cs.remove(i));
    }
}

/// Among the first `n` children one has the longest block.
proof fn lemma_some_longest(cs: Seq<ChildView>, n: int)
    requires
        0 < n <= cs.len(),
    ensures
        exists|i: int| #[trigger] is_longest(cs.take(n), i),
        n == cs.len() ==> exists|i: int| #[trigger] is_longest(cs, i),
    decreases n,
{
    let t = cs.take(n);
    if n == 1 {
        assert(is_longest(t, 0));
    } else {
        lemma_some_longest(cs, n - 1);
        let u = cs.take(n - 1);
        let i = choose|i: int| #[trigger] is_longest(u, i);
        assert forall|j: int| 0 <= j < u.len() implies u[j] == #[trigger] t[j] by {}
        assert(u[i] == t[i]);
        if child_block(t[n - 1]).len() >= child_block(t[i]).len() {
            assert forall|j: int| 0 <= j < t.len() implies child_block(#[trigger] t[j]).len() < child_block(
                t[n - 1],
            ).len() || (child_block(t[j]).len() == child_block(t[n - 1]).len() && j <= n - 1) by {
                if j < n - 1 {
                    assert(child_block(u[j]).len() <= child_block(u[i]).len());
                }
            }
            assert(is_longest(t, n - 1));
        } else {
            assert forall|j: int| 0 <= j < t.len() implies child_block(#[trigger] t[j]).len() < child_block(
                t[i],
            ).len() || (child_block(t[j]).len() == child_block(t[i]).len() && j <= i) by {
                if j < n - 1 {
                    assert(u[j] == t[j]);
                }
            }
            assert(is_longest(t, i));
        }
    }
    if n == cs.len() {
        assert(t =~= cs);
    }
}

proof fn lemma_place_child(s: Seq<ChildView>, x: ChildView, k: int)
    requires
        0 <= k <= s.len(),
        forall|j: int| k <= j < s.len() ==> before(x.path, (#[trigger] s[j]).path),
        k > 0 ==> !before(x.path, s[k - 1].path),
    ensures
        place_child(s, x) == s.insert(k, x),
    decreases s.len(),
{
    if s.len() > 0 && before(x.path, s.last().path) {
        let d = s.drop_last();
        assert(k < s.len());
        assert forall|j: int| k <= j < d.len() implies before(x.path, (#[trigger] d[j]).path) by {
            assert(d[j] == s[j]);
        }
        lemma_place_child(d, x, k);
        assert(d.insert(k, x).push(s.last()) =~= s.insert(k, x));
    } else {
        assert(k == s.len()) by {
            if k < s.len() {
                assert(before(x.path, s[s.len() - 1].path));
            }
        }
        assert(s.push(x) =~= s.insert(k, x));
    }
}

/// Orders the children by path.
pub(crate) fn sort_children(cs: &Vec<ChildSummary>) -> (r: Vec<ChildSummary>)
    ensures
        children_view(r@) == by_path(children_view(cs@)),
{
    let ghost cv = children_view(cs@);
    let mut out: Vec<ChildSummary> = Vec::new();
    let mut i: usize = 0;
    assert(children_view(out@) =~= by_path(cv.take(0)));
    while i < cs.len()
        invariant
            i <= cs@.len(),
            cv == children_view(cs@),
            children_view(out@) == by_path(cv.take(i as int)),
        decreases cs@.len() - i,
    {
        assert(cv.take(i + 1).drop_last() =~= cv.take(i as int));
        let c: &ChildSummary = &cs[i];
        assert(cv.take(i + 1).last() == c@);
        let ghost q = children_view(out@);
        let mut k: usize = out.len();
        while k > 0 && text_before(c.path.as_str(), out[k - 1].path.as_str())
            invariant
                k <= out@.len(),
                q == children_view(out@),
                forall|j: int| k <= j < q.len() ==> before(c.path@, (#[trigger] q[j]).path),
            decreases k,
        {
            k = k - 1;
        }
        proof {
            lemma_place_child(q, c@, k as int);
        }
        out.insert(k, c.copied());
        assert(children_view(out@) =~= q.insert(k as int, c@));
        i = i + 1;
    }
    assert(cv.take(i as int) =~= cv);
    out
}

fn block_of(c: &ChildSummary) -> (r: Vec<char>)
    ensures
        r@ == child_block(c@),
{
    let mut b = chars_of(c.path.as_str());
    push_text(&mut b, ":\n");
    push_text(&mut b, c.text.as_str());
    push_text(&mut b, "\n");
    b
}

proof fn lemma_blocks_len_grows(cs: Seq<ChildView>, n: int)
    requires
        0 <= n <= cs.len(),
    ensures
        0 <= blocks_len(cs.take(n)) <= blocks_len(cs),
    decreases cs.len() - n,
{
    if n == cs.len() {
        assert(cs.take(n) =~= cs);
        lemma_blocks_len_nonneg(cs);
    } else {
        lemma_blocks_len_grows(cs, n + 1);
        assert(cs.take(n + 1).drop_last() =~= cs.take(n));
        lemma_blocks_len_nonneg(cs.take(n));
    }
}

proof fn lemma_blocks_len_nonneg(cs: Seq<ChildView>)
    ensures
        0 <= blocks_len(cs),
    decreases cs.len(),
{
    if cs.len() > 0 {
        lemma_blocks_len_nonneg(cs.drop_last());
    }
}

/// Whether the children's blocks fit into a prompt.
fn blocks_fit(cs: &Vec<ChildSummary>) -> (r: bool)
    ensures
        r == (blocks_len(children_view(cs@)) <= MODULE_PROMPT_CHILD_CHARS),
{
    let ghost cv = children_view(cs@);
    let mut total: usize = 0;
    let mut i: usize = 0;
    while i < cs.len()
        invariant
            i <= cs@.len(),
            cv == children_view(cs@),
            total == blocks_len(cv.take(i as int)),
            total <= MODULE_PROMPT_CHILD_CHARS,
        decreases cs@.len() - i,
    {
        proof {
            lemma_blocks_len_grows(cv, i + 1);
            assert(cv.take(i + 1).drop_last() =~= cv.take(i as int));
        }
        let b = block_of(&cs[i]);
        if b.len() > MODULE_PROMPT_CHILD_CHARS - total {
            return false;
        }
        total = total + b.len();
        i = i + 1;
    }
    assert(cv.take(i as int) =~= cv);
    true
}

fn longest_child(cs: &Vec<ChildSummary>) -> (r: usize)
    requires
        cs@.len() > 0,
    ensures
        is_longest(children_view(cs@), r as int),
{
    let ghost cv = children_view(cs@);
    let mut best: usize = 0;
    let first = block_of(&cs[0]);
    let mut best_len: usize = first.len();
    let mut i: usize = 1;
    while i < cs.len()
        invariant
            1 <= i <= cs@.len(),
            cv == children_view(cs@),
            best < i,
            best_len == child_block(cv[best as int]).len(),
            forall|j: int|
                0 <= j < i ==> child_block(#[trigger] cv[j]).len() < best_len || (child_block(cv[j]).len() == best_len
                    && j <= best),
        decreases cs@.len() - i,
    {
        let b = block_of(&cs[i]);
        assert(b@ == child_block(cv[i as int]));
        if b.len() >= best_len {
            best = i;
            best_len = b.len();
        }
        i = i + 1;
    }
    best
}

/// Builds the prompt for a module's or the repository's summary. The children
/// come in order of their paths; where they are too many for the prompt, the
/// longest are left out.
pub fn build_module_prompt(project: &str, dir: &str, is_repo: bool, children: &Vec<ChildSummary>) -> (r: String)
    ensures
        r@ == module_prompt(project@, dir@, is_repo, children_view(children@)),
{
    let ghost cv = children_view(children@);
    let mut kept: Vec<ChildSummary> = Vec::new();
    let mut c: usize = 0;
    while c < children.len()
        invariant
            c <= children@.len(),
            cv == children_view(children@),
            children_view(kept@) == cv.take(c as int),
        decreases children@.len() - c,
    {
        let ghost done = kept@;
        kept.push(children[c].copied());
        c = c + 1;
        assert(children_view(kept@) =~= children_view(done).push(cv[c - 1]));
        assert(cv.take(c as int) =~= cv.take(c - 1).push(cv[c - 1]));
    }
    assert(cv.take(c as int) =~= cv);
    while kept.len() > 0 && !blocks_fit(&kept)
        invariant
            fitting(children_view(kept@)) == fitting(cv),
        decreases kept@.len(),
    {
        let i: usize = longest_child(&kept);
        let ghost kv = children_view(kept@);
        proof {
            lemma_longest_unique(kv, i as int);
        }
        let _ = kept.remove(i);
        assert(children_view(kept@) =~= kv.remove(i as int));
    }
    assert(children_view(kept@) == fitting(cv)) by {
        let kv = children_view(kept@);
        if kv.len() == 0 {
            assert(!is_longest(kv, longest(kv)));
        }
    }
    let ordered = sort_children(&kept);
    let ghost ov = children_view(ordered@);
    let mut s = chars_of("Project: ");
    push_text(&mut s, project);
    push_text(&mut s, "\nModule: ");
    push_text(&mut s, dir);
    push_text(&mut s, "\n\n");
    let ghost upto = s@;
    let mut i: usize = 0;
    assert(s@ =~= upto + blocks(ov.take(0)));
    while i < ordered.len()
        invariant
            i <= ordered@.len(),
            ov == children_view(ordered@),
            s@ == upto + blocks(ov.take(i as int)),
        decreases ordered@.len() - i,
    {
        assert(ov.take(i + 1).drop_last() =~= ov.take(i as int));
        let b = block_of(&ordered[i]);
        push_all(&mut s, b.as_slice());
        push_text(&mut s, "\n");
        i = i + 1;
        assert(s@ =~= upto + blocks(ov.take(i as int)));
    }
    assert(ov.take(i as int) =~= ov);
    push_text(&mut s, MODULE_PROMPT_RULE);
    if is_repo {
        push_text(&mut s, REPO_PROMPT_TAIL);
    } else {
        push_text(&mut s, MODULE_PROMPT_TAIL);
    }
    string_of(s.as_slice())
}

} // verus!
