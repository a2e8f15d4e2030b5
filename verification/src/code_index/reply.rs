//! The header and summary calls: their prompts, and the grammar of the replies.

use std::collections::HashMap;

use vstd::prelude::*;

use crate::code_index::rows::{opt_str_view, opt_view};
use crate::numeral::{dec, parse_usize, push_i64, push_usize, read_usize};
use crate::text::{
    char_position, chars_of, find_char, has_prefix, head, join, joined, lemma_views_push, lines, lines_of, push_all,
    push_text, starts_with, string_of, tail, trim, trim_start, trim_start_of, trimmed, trimmed_start, trimmed_start_of,
    views,
};

verus! {

/// How many characters of a file a prompt shows.
pub const HEADER_TRUNCATE_CHARS: usize = 24_000;

/// One chunk of a file, as it is listed in the header prompt.
#[derive(Debug, Clone)]
pub struct ChunkMeta {
    pub id: i64,
    pub symbol: Option<String>,
    pub kind: String,
    pub start_line: i64,
    pub end_line: i64,
    pub text: String,
}

// --- replies ---

/// A chunk number and its header: digits, a colon, and a text that is not
/// empty.
pub open spec fn header_line(rest: Seq<char>) -> Option<(usize, Seq<char>)> {
    let k = find_char(rest, ':');
    if k < rest.len() {
        let text = trim(rest.skip(k + 1));
        match read_usize(trim(rest.take(k))) {
            Some(n) => if text.len() > 0 {
                Some((n, text))
            } else {
                None
            },
            None => None,
        }
    } else {
        None
    }
}

/// `s` without the leading marks that Markdown puts before a title.
pub open spec fn skip_marks(s: Seq<char>) -> Seq<char>
    decreases s.len(),
{
    if s.len() > 0 && (s[0] == '#' || s[0] == '*' || s[0] == ' ') {
        skip_marks(s.drop_first())
    } else {
        s
    }
}

/// What stands behind the word SUMMARY, where the line begins with it.
pub open spec fn behind_summary(line: Seq<char>) -> Seq<char> {
    trim_start_of(skip_marks(line).skip(7), '*', '*')
}

/// What stands behind the summary marker, where the line begins with one: the
/// word SUMMARY and a colon, with or without Markdown marks around them.
pub open spec fn marker(line: Seq<char>) -> Option<Seq<char>> {
    let b = behind_summary(line);
    if starts_with(skip_marks(line), "SUMMARY"@) && b.len() > 0 && b[0] == ':' {
        Some(trim(trim_start_of(b.skip(1), '*', '*')))
    } else {
        None
    }
}

/// What has been read of a reply: the headers by chunk number, and the lines
/// of the summary once its marker has been seen.
pub ghost struct Reading {
    pub headers: Map<usize, Seq<char>>,
    pub summary: Option<Seq<Seq<char>>>,
}

/// One more line of a reply. Within the summary only a line that begins with a
/// hash is still read as a header.
pub open spec fn read_line(st: Reading, line: Seq<char>) -> Reading {
    let t = trim(line);
    let hashed = t.len() > 0 && t[0] == '#';
    let rest = if hashed {
        t.skip(1)
    } else {
        t
    };
    match st.summary {
        Some(ls) => if hashed && header_line(rest) is Some {
            let (n, text) = header_line(rest)->0;
            Reading { headers: st.headers.insert(n, text), summary: st.summary }
        } else {
            Reading { headers: st.headers, summary: Some(ls.push(line)) }
        },
        None => if marker(t) is Some {
            let after = marker(t)->0;
            Reading {
                headers: st.headers,
                summary: Some(
                    if after.len() == 0 {
                        Seq::empty()
                    } else {
                        seq![after]
                    },
                ),
            }
        } else if header_line(rest) is Some {
            let (n, text) = header_line(rest)->0;
            Reading { headers: st.headers.insert(n, text), summary: None }
        } else {
            st
        },
    }
}

/// The lines of a reply, read one after the other.
pub open spec fn read_lines(ls: Seq<Seq<char>>) -> Reading
    decreases ls.len(),
{
    if ls.len() == 0 {
        Reading { headers: Map::empty(), summary: None }
    } else {
        read_line(read_lines(ls.drop_last()), ls.last())
    }
}

/// The headers that a reply gives, by chunk number.
pub open spec fn reply_headers(reply: Seq<char>) -> Map<usize, Seq<char>> {
    read_lines(lines(reply)).headers
}

/// The summary that a reply gives: what stands behind the marker, unless that
/// is blank.
pub open spec fn reply_summary(reply: Seq<char>) -> Option<Seq<char>> {
    match read_lines(lines(reply)).summary {
        Some(ls) => {
            let s = trim(join(ls, "\n"@));
            if s.len() == 0 {
                None
            } else {
                Some(s)
            }
        },
        None => None,
    }
}

/// What the headers of a map say.
pub open spec fn headers_view(m: Map<usize, String>) -> Map<usize, Seq<char>> {
    Map::new(|n: usize| m.contains_key(n), |n: usize| m[n]@)
}

/// Reads a chunk number and its header.
pub fn parse_header_line(rest: &[char]) -> (r: Option<(usize, String)>)
    ensures
        r is Some == header_line(rest@) is Some,
        r is Some ==> (r->0).0 == (header_line(rest@)->0).0 && (r->0).1@ == (header_line(rest@)->0).1,
{
    let k: usize = char_position(rest, ':');
    if k == rest.len() {
        return None;
    }
    let text = trimmed(tail(rest, k + 1));
    match parse_usize(trimmed(head(rest, k))) {
        Some(n) => if text.len() > 0 {
            Some((n, string_of(text)))
        } else {
            None
        },
        None => None,
    }
}

/// What stands behind the summary marker, where the line begins with one.
pub fn summary_marker<'a>(line: &'a [char]) -> (r: Option<&'a [char]>)
    ensures
        r is Some == marker(line@) is Some,
        r is Some ==> (r->0)@ == marker(line@)->0,
{
    let mut i: usize = 0;
    assert(line@.skip(0) =~= line@);
    while i < line.len() && (line[i] == '#' || line[i] == '*' || line[i] == ' ')
        invariant
            i <= line@.len(),
            skip_marks(line@.skip(i as int)) == skip_marks(line@),
        decreases line@.len() - i,
    {
        assert(line@.skip(i as int).drop_first() =~= line@.skip(i + 1));
        i = i + 1;
    }
    let t = tail(line, i);
    if !has_prefix(t, "SUMMARY") {
        return None;
    }
    proof {
        reveal_strlit("SUMMARY");
    }
    let b = trimmed_start_of(tail(t, 7), '*', '*');
    if b.len() > 0 && b[0] == ':' {
        Some(trimmed(trimmed_start_of(tail(b, 1), '*', '*')))
    } else {
        None
    }
}

/// Reads a reply to the header call: the headers by chunk number, and the
/// summary.
pub fn parse_header_reply(reply: &str) -> (r: (HashMap<usize, String>, Option<String>))
    ensures
        headers_view(r.0@) == reply_headers(reply@),
        opt_view(r.1) == reply_summary(reply@),
{
    broadcast use vstd::std_specs::hash::group_hash_axioms;

    let rc = chars_of(reply);
    let ls = lines_of(rc.as_slice());
    let ghost lv = views(ls@);
    let mut headers: HashMap<usize, String> = HashMap::new();
    let mut found: bool = false;
    let mut kept: Vec<&[char]> = Vec::new();
    let mut i: usize = 0;
    assert(headers_view(headers@) =~= read_lines(lv.take(0)).headers);
    while i < ls.len()
        invariant
            i <= ls@.len(),
            lv == views(ls@),
            headers_view(headers@) == read_lines(lv.take(i as int)).headers,
            found == (read_lines(lv.take(i as int)).summary is Some),
            found ==> views(kept@) == read_lines(lv.take(i as int)).summary->0,
            !found ==> kept@.len() == 0,
        decreases ls@.len() - i,
    {
        broadcast use vstd::std_specs::hash::group_hash_axioms;

        assert(lv.take(i + 1).drop_last() =~= lv.take(i as int));
        let line: &[char] = ls[i];
        let ghost st = read_lines(lv.take(i as int));
        assert(read_lines(lv.take(i + 1)) == read_line(st, line@));
        let t = trimmed(line);
        let hashed: bool = t.len() > 0 && t[0] == '#';
        let rest: &[char] = if hashed {
            tail(t, 1)
        } else {
            t
        };
        let ghost before = headers@;
        if found {
            let h = if hashed {
                parse_header_line(rest)
            } else {
                None
            };
            match h {
                Some((n, text)) => {
                    headers.insert(n, text);
                    assert(headers_view(headers@) =~= headers_view(before).insert(n, text@));
                },
                None => {
                    proof {
                        lemma_views_push(kept@, line);
                    }
                    kept.push(line);
                },
            }
        } else {
            match summary_marker(t) {
                Some(after) => {
                    found = true;
                    if after.len() > 0 {
                        proof {
                            lemma_views_push(kept@, after);
                        }
                        kept.push(after);
                    }
                    assert(views(kept@) =~= read_line(st, line@).summary->0);
                },
                None => {
                    if let Some((n, text)) = parse_header_line(rest) {
                        headers.insert(n, text);
                        assert(headers_view(headers@) =~= headers_view(before).insert(n, text@));
                    }
                },
            }
        }
        i = i + 1;
    }
    assert(lv.take(i as int) =~= lv);
    let mut summary: Option<String> = None;
    if found {
        let all = joined(&kept, "\n");
        let s = trimmed(all.as_slice());
        if s.len() > 0 {
            summary = Some(string_of(s));
        }
    }
    (headers, summary)
}

/// Reads a reply to the summary call: the summary half of the same grammar.
pub fn parse_summary_reply(reply: &str) -> (r: Option<String>)
    ensures
        opt_view(r) == reply_summary(reply@),
{
    parse_header_reply(reply).1
}

/// A line in which a model narrates a tool call that it never made.
pub open spec fn is_tool_line(line: Seq<char>) -> bool {
    let l = trim_start(line);
    starts_with(l, "**Tool:"@) || starts_with(l, "<function_calls>"@) || starts_with(l, "<invoke "@)
}

/// Whether a reply narrates tool calls and so answers nothing.
pub fn is_tool_transcript(reply: &str) -> (r: bool)
    ensures
        r == exists|i: int| 0 <= i < lines(reply@).len() && is_tool_line(#[trigger] lines(reply@)[i]),
{
    let rc = chars_of(reply);
    let ls = lines_of(rc.as_slice());
    let ghost lv = views(ls@);
    let mut i: usize = 0;
    while i < ls.len()
        invariant
            i <= ls@.len(),
            lv == views(ls@),
            lv == lines(reply@),
            forall|j: int| 0 <= j < i ==> !is_tool_line(#[trigger] lv[j]),
        decreases ls@.len() - i,
    {
        let l = trimmed_start(ls[i]);
        if has_prefix(l, "**Tool:") || has_prefix(l, "<function_calls>") || has_prefix(l, "<invoke ") {
            assert(is_tool_line(lv[i as int]));
            return true;
        }
        i = i + 1;
    }
    false
}

// --- prompts ---

/// What a prompt shows of a file's text, and whether that is less than all.
pub open spec fn shown_text(text: Seq<char>) -> (Seq<char>, bool) {
    if text.len() > HEADER_TRUNCATE_CHARS {
        (text.take(HEADER_TRUNCATE_CHARS as int), true)
    } else {
        (text, false)
    }
}

/// Cuts a file's text to what a prompt shows of it, and says whether it did.
pub fn truncate_for_prompt(file_text: &str) -> (r: (String, bool))
    ensures
        (r.0@, r.1) == shown_text(file_text@),
{
    let cs = chars_of(file_text);
    if cs.len() > HEADER_TRUNCATE_CHARS {
        (string_of(head(cs.as_slice(), HEADER_TRUNCATE_CHARS)), true)
    } else {
        (string_of(cs.as_slice()), false)
    }
}

/// What a prompt says of a file before it asks for anything.
pub open spec fn file_block(project: Seq<char>, path: Seq<char>, text: Seq<char>) -> Seq<char> {
    "Project: "@ + project + "\nFile: "@ + path + "\n\n"@ + shown_text(text).0 + (if shown_text(text).1 {
        "\n\n[... truncated at "@ + dec(HEADER_TRUNCATE_CHARS as int) + " characters; file continues]"@
    } else {
        Seq::empty()
    })
}

fn build_file_block(project: &str, path: &str, file_text: &str) -> (r: Vec<char>)
    ensures
        r@ == file_block(project@, path@, file_text@),
{
    let (text, truncated) = truncate_for_prompt(file_text);
    let mut s = chars_of("Project: ");
    push_text(&mut s, project);
    push_text(&mut s, "\nFile: ");
    push_text(&mut s, path);
    push_text(&mut s, "\n\n");
    push_text(&mut s, text.as_str());
    let ghost upto = s@;
    if truncated {
        push_text(&mut s, "\n\n[... truncated at ");
        push_usize(&mut s, HEADER_TRUNCATE_CHARS);
        push_text(&mut s, " characters; file continues]");
        assert(s@ =~= upto + ("\n\n[... truncated at "@ + dec(HEADER_TRUNCATE_CHARS as int)
            + " characters; file continues]"@));
    } else {
        assert(s@ =~= upto + Seq::<char>::empty());
    }
    s
}

/// The prompt's line for the chunk with number `n`.
pub open spec fn chunk_line(n: int, c: ChunkMeta) -> Seq<char> {
    "#"@ + dec(n) + " "@ + c.kind@ + " "@ + (match c.symbol {
        Some(s) => s@,
        None => "-"@,
    }) + " lines "@ + dec(c.start_line as int) + "-"@ + dec(c.end_line as int) + "\n"@
}

/// The prompt's lines for the chunks, which are numbered from one.
pub open spec fn chunk_lines(chunks: Seq<ChunkMeta>) -> Seq<char>
    decreases chunks.len(),
{
    if chunks.len() == 0 {
        Seq::empty()
    } else {
        chunk_lines(chunks.drop_last()) + chunk_line(chunks.len() as int, chunks.last())
    }
}

/// How the header prompt ends.
pub const HEADER_PROMPT_TAIL: &'static str = "\nFor each chunk above, reply with exactly one line, in this exact format:\n#<n>: <at most 2 sentences situating this chunk in the file and the project>\nOne line per chunk, nothing else. Skip a chunk (omit its line) if you have nothing to say.\nThen a line \"SUMMARY:\" followed by at most 200 words: what this file does, its key types and functions, invariants and gotchas. No chunk numbers in the summary.\n";

/// How the summary prompt ends.
pub const SUMMARY_PROMPT_TAIL: &'static str = "\n\nReply with a line \"SUMMARY:\" followed by at most 200 words: what this file does, its key types and functions, invariants and gotchas. No chunk numbers in the summary.\n";

/// The prompt for the headers and the summary of a file.
pub open spec fn header_prompt(project: Seq<char>, path: Seq<char>, text: Seq<char>, chunks: Seq<ChunkMeta>) -> Seq<char> {
    file_block(project, path, text) + "\n\nChunks:\n"@ + chunk_lines(chunks) + HEADER_PROMPT_TAIL@
}

/// Builds the prompt for the headers and the summary of a file.
pub fn build_header_prompt(project: &str, path: &str, file_text: &str, chunks: &Vec<ChunkMeta>) -> (r: String)
    ensures
        r@ == header_prompt(project@, path@, file_text@, chunks@),
{
    let mut s = build_file_block(project, path, file_text);
    push_text(&mut s, "\n\nChunks:\n");
    let ghost upto = s@;
    let mut i: usize = 0;
    assert(s@ =~= upto + chunk_lines(chunks@.take(0)));
    while i < chunks.len()
        invariant
            i <= chunks@.len(),
            s@ == upto + chunk_lines(chunks@.take(i as int)),
        decreases chunks@.len() - i,
    {
        assert(chunks@.take(i + 1).drop_last() =~= chunks@.take(i as int));
        let ghost before = s@;
        let c: &ChunkMeta = &chunks[i];
        push_text(&mut s, "#");
        push_usize(&mut s, i + 1);
        push_text(&mut s, " ");
        push_text(&mut s, c.kind.as_str());
        push_text(&mut s, " ");
        match &c.symbol {
            Some(sym) => push_text(&mut s, sym.as_str()),
            None => push_text(&mut s, "-"),
        }
        push_text(&mut s, " lines ");
        push_i64(&mut s, c.start_line);
        push_text(&mut s, "-");
        push_i64(&mut s, c.end_line);
        push_text(&mut s, "\n");
        assert(s@ =~= before + chunk_line(i + 1, *c));
        i = i + 1;
        assert(s@ =~= upto + chunk_lines(chunks@.take(i as int)));
    }
    assert(chunks@.take(i as int) =~= chunks@);
    push_text(&mut s, HEADER_PROMPT_TAIL);
    string_of(s.as_slice())
}

/// Builds the prompt for the summary of a file alone.
pub fn build_summary_prompt(project: &str, path: &str, file_text: &str) -> (r: String)
    ensures
        r@ == file_block(project@, path@, file_text@) + SUMMARY_PROMPT_TAIL@,
{
    let mut s = build_file_block(project, path, file_text);
    push_text(&mut s, SUMMARY_PROMPT_TAIL);
    string_of(s.as_slice())
}

/// The first line of a text, empty where it has none.
pub open spec fn first_line(text: Seq<char>) -> Seq<char> {
    if lines(text).len() > 0 {
        lines(text)[0]
    } else {
        Seq::empty()
    }
}

/// What a chunk is embedded by: its header, its first line and its text, cut
/// to `cap` characters.
pub open spec fn embedding_text(header: Option<Seq<char>>, text: Seq<char>, cap: int) -> Seq<char> {
    let all = (match header {
        Some(h) => h,
        None => Seq::empty(),
    }) + "\n"@ + first_line(text) + "\n"@ + text;
    if all.len() > cap {
        all.take(cap)
    } else {
        all
    }
}

/// What a chunk is embedded by, cut to `cap` characters.
pub fn embedding_input(header: Option<&str>, text: &str, cap: usize) -> (r: String)
    ensures
        r@ == embedding_text(opt_str_view(header), text@, cap as int),
{
    let tc = chars_of(text);
    let ls = lines_of(tc.as_slice());
    let mut all: Vec<char> = match header {
        Some(h) => chars_of(h),
        None => Vec::new(),
    };
    push_text(&mut all, "\n");
    assert(views(ls@).len() == ls@.len());
    let ghost upto = all@;
    if ls.len() > 0 {
        assert(views(ls@)[0] == ls@[0]@);
        push_all(&mut all, ls[0]);
    }
    assert(all@ =~= upto + first_line(text@));
    push_text(&mut all, "\n");
    push_all(&mut all, tc.as_slice());
    if all.len() > cap {
        string_of(head(all.as_slice(), cap))
    } else {
        string_of(all.as_slice())
    }
}

} // verus!
