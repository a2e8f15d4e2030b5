//! Laws of the replies to the header call.

use vstd::prelude::*;

use crate::code_index::reply::{
    chunk_lines, embedding_text, file_block, first_line, header_line, header_prompt, is_tool_line, marker, read_line, read_lines,
    reply_headers, reply_summary, skip_marks, ChunkMeta, Reading, HEADER_PROMPT_TAIL,
};
use crate::export::{framed, is_one_line, law_export_reads_back};
use crate::laws::text::{
    all_space, law_lines_append, law_one_line, law_trim_of_padded, lemma_own_trim_is_bare, lemma_stands_between,
    lemma_stands_in_part, lemma_trim_start_pad,
};
use crate::numeral::{dec, dec_nat, is_digit, law_numeral_reads_back, lemma_dec_nat};
use crate::text::{contains, find_char, is_space, join, lemma_find_char, lines, starts_with, trim, trim_start_of};

verus! {

/// The line that gives chunk `n` the header `h`.
pub open spec fn written_header(n: usize, h: Seq<char>) -> Seq<char> {
    "#"@ + dec(n as int) + ": "@ + h
}

/// Whether a text can be a header: one line, not empty, without white space
/// around it.
pub open spec fn is_header_text(h: Seq<char>) -> bool {
    h.len() > 0 && trim(h) == h && !h.contains('\n')
}

/// A header line is read as it was written, wherever it stands.
proof fn lemma_written_header(st: Reading, n: usize, h: Seq<char>)
    requires
        is_header_text(h),
    ensures
        is_one_line(written_header(n, h)),
        read_line(st, written_header(n, h)) == (Reading { headers: st.headers.insert(n, h), summary: st.summary }),
{
    let line = written_header(n, h);
    let d = dec(n as int);
    reveal_strlit("#");
    reveal_strlit(": ");
    reveal_strlit("SUMMARY");
    lemma_own_trim_is_bare(h);
    lemma_dec_nat(n as nat);
    law_numeral_reads_back(n as int);
    assert(line[0] == '#');
    assert(line.last() == h.last());
    crate::code_index::scope::lemma_trim_noop(line);
    let rest = line.skip(1);
    let k = d.len() as int;
    assert(rest =~= d + ": "@ + h);
    assert(rest[0] == d[0]);
    assert(is_digit(d[0]));
    assert(skip_marks(line) == rest) by {
        assert(line.drop_first() =~= rest);
        assert(skip_marks(rest) == rest);
    }
    assert(!starts_with(rest, "SUMMARY"@)) by {
        if starts_with(rest, "SUMMARY"@) {
            assert(rest.take("SUMMARY"@.len() as int)[0] == rest[0]);
            assert("SUMMARY"@[0] == 'S');
        }
    }
    assert(marker(line) is None);
    assert forall|j: int| 0 <= j < k implies rest[j] != ':' by {
        assert(rest[j] == d[j]);
        assert(is_digit(d[j]));
    }
    assert(rest[k] == ':');
    lemma_find_char(rest, ':');
    assert(find_char(rest, ':') == k);
    assert(rest.take(k) =~= d);
    assert(is_digit(d[k - 1]));
    crate::code_index::scope::lemma_trim_noop(d);
    let sp = seq![' '];
    let none: Seq<char> = Seq::empty();
    assert(rest.skip(k + 1) =~= sp + h + none);
    assert(all_space(sp));
    law_trim_of_padded(sp, h, none);
    assert(header_line(rest) == Some((n, h)));
    assert(!line.contains('\n')) by {
        assert forall|j: int| 0 <= j < line.len() implies line[j] != '\n' by {
            if 0 < j <= k {
                assert(line[j] == d[j - 1]);
                assert(is_digit(d[j - 1]));
            } else if j > k + 2 {
                assert(line[j] == h[j - k - 3]);
                assert(h.contains(h[j - k - 3]));
            }
        }
    }
    assert(!is_space('\r') || line.last() != '\r');
}

/// A header line gives its chunk exactly the header that stands on it,
/// whatever came before and whatever characters the header holds, and takes
/// nothing away from the other chunks.
pub proof fn law_header_reads_back(before: Seq<char>, n: usize, h: Seq<char>)
    requires
        before.len() > 0 ==> before.last() == '\n',
        h.len() > 0,
        trim(h) == h,
        !h.contains('\n'),
    ensures
        reply_headers(before + ("#"@ + dec(n as int) + ": "@ + h)) == reply_headers(before).insert(n, h),
        reply_summary(before + ("#"@ + dec(n as int) + ": "@ + h)) == reply_summary(before),
{
    let line = written_header(n, h);
    lemma_written_header(read_lines(lines(before)), n, h);
    reveal_strlit("#");
    assert(line.len() > 0);
    law_one_line(line);
    law_lines_append(before, line);
    assert(lines(before + line).drop_last() =~= lines(before));
}

/// The lines of a reply in the form that the header call asks for.
pub open spec fn written_lines(hs: Seq<(usize, Seq<char>)>, s: Seq<Seq<char>>) -> Seq<Seq<char>> {
    hs.map_values(|p: (usize, Seq<char>)| written_header(p.0, p.1)) + seq!["SUMMARY: "@ + s[0]] + s.drop_first()
}

/// The headers by chunk number, the last one for each.
pub open spec fn last_headers(hs: Seq<(usize, Seq<char>)>) -> Map<usize, Seq<char>>
    decreases hs.len(),
{
    if hs.len() == 0 {
        Map::empty()
    } else {
        last_headers(hs.drop_last()).insert(hs.last().0, hs.last().1)
    }
}

proof fn lemma_headers_read(hs: Seq<(usize, Seq<char>)>)
    requires
        forall|i: int| 0 <= i < hs.len() ==> is_header_text((#[trigger] hs[i]).1),
    ensures
        read_lines(hs.map_values(|p: (usize, Seq<char>)| written_header(p.0, p.1))) == (Reading {
            headers: last_headers(hs),
            summary: None,
        }),
    decreases hs.len(),
{
    let ls = hs.map_values(|p: (usize, Seq<char>)| written_header(p.0, p.1));
    if hs.len() > 0 {
        lemma_headers_read(hs.drop_last());
        assert(ls.drop_last() =~= hs.drop_last().map_values(|p: (usize, Seq<char>)| written_header(p.0, p.1)));
        lemma_written_header(read_lines(ls.drop_last()), hs.last().0, hs.last().1);
    }
}

proof fn lemma_marker_line(st: Reading, l: Seq<char>)
    requires
        st.summary is None,
        l.len() > 0,
        trim(l) == l,
    ensures
        read_line(st, "SUMMARY: "@ + l) == (Reading { headers: st.headers, summary: Some(seq![l]) }),
{
    let line = "SUMMARY: "@ + l;
    reveal_strlit("SUMMARY: ");
    reveal_strlit("SUMMARY");
    lemma_own_trim_is_bare(l);
    assert(line[0] == 'S');
    assert(line.last() == l.last());
    crate::code_index::scope::lemma_trim_noop(line);
    assert(skip_marks(line) == line);
    assert(line.take(7) =~= "SUMMARY"@);
    let b = line.skip(7);
    assert(b[0] == ':');
    assert(trim_start_of(b, '*', '*') == b);
    let sp = seq![' '];
    let none: Seq<char> = Seq::empty();
    assert(b.skip(1) =~= sp + l + none);
    assert((sp + l + none)[0] == ' ');
    assert(trim_start_of(b.skip(1), '*', '*') == b.skip(1));
    assert(all_space(sp));
    law_trim_of_padded(sp, l, none);
    assert(marker(line) == Some(l));
}

proof fn lemma_summary_read(st: Reading, ls: Seq<Seq<char>>, s: Seq<Seq<char>>, k: int)
    requires
        st == read_lines(ls.drop_last()),
        st.summary is None,
        ls.len() > 0,
        ls.last() == "SUMMARY: "@ + s[0],
        s.len() > 0,
        s[0].len() > 0,
        trim(s[0]) == s[0],
        forall|i: int| 0 < i < s.len() ==> !begins_with_hash(#[trigger] s[i]),
        1 <= k <= s.len(),
    ensures
        read_lines(ls + s.subrange(1, k)) == (Reading { headers: st.headers, summary: Some(s.take(k)) }),
    decreases k,
{
    if k == 1 {
        assert(ls + s.subrange(1, 1) =~= ls);
        lemma_marker_line(st, s[0]);
        assert(seq![s[0]] =~= s.take(1));
    } else {
        lemma_summary_read(st, ls, s, k - 1);
        let now = ls + s.subrange(1, k);
        assert(now.drop_last() =~= ls + s.subrange(1, k - 1));
        assert(now.last() == s[k - 1]);
        assert(!begins_with_hash(s[k - 1]));
        assert(s.take(k - 1).push(s[k - 1]) =~= s.take(k));
    }
}

/// Whether the first character of a line that is no white space is a hash.
pub open spec fn begins_with_hash(l: Seq<char>) -> bool {
    trim(l).len() > 0 && trim(l)[0] == '#'
}

proof fn lemma_joined_ends(s: Seq<Seq<char>>, sep: Seq<char>)
    requires
        s.len() > 0,
        s[0].len() > 0,
        s.last().len() > 0,
    ensures
        join(s, sep).len() > 0,
        join(s, sep)[0] == s[0][0],
        join(s, sep).last() == s.last().last(),
    decreases s.len(),
{
    if s.len() > 1 {
        let p = s.drop_last();
        lemma_joined_first(p, sep);
        assert(join(s, sep)[0] == join(p, sep)[0]);
    }
}

proof fn lemma_joined_first(s: Seq<Seq<char>>, sep: Seq<char>)
    requires
        s.len() > 0,
        s[0].len() > 0,
    ensures
        join(s, sep).len() > 0,
        join(s, sep)[0] == s[0][0],
    decreases s.len(),
{
    if s.len() > 1 {
        lemma_joined_first(s.drop_last(), sep);
    }
}

/// A reply in the form that the header call asks for, a line for each header
/// and then a summary of one or more lines, reads back whole: each chunk has
/// the last header that was given for it, no other chunk has one, and the
/// summary is the lines behind the marker.
pub proof fn law_reply_reads_back(hs: Seq<(usize, Seq<char>)>, s: Seq<Seq<char>>)
    requires
        forall|i: int| 0 <= i < hs.len() ==> is_header_text((#[trigger] hs[i]).1),
        s.len() > 0,
        s[0].len() > 0,
        trim(s[0]) == s[0],
        s.last().len() > 0,
        !is_space(s.last().last()),
        forall|i: int| 0 <= i < s.len() ==> is_one_line(#[trigger] s[i]),
        forall|i: int| 0 < i < s.len() ==> !begins_with_hash(#[trigger] s[i]),
    ensures
        reply_headers(framed(written_lines(hs, s))) == last_headers(hs),
        reply_summary(framed(written_lines(hs, s))) == Some(join(s, "\n"@)),
{
    let hl = hs.map_values(|p: (usize, Seq<char>)| written_header(p.0, p.1));
    let ls = hl + seq!["SUMMARY: "@ + s[0]];
    let all = written_lines(hs, s);
    reveal_strlit("SUMMARY: ");
    assert forall|i: int| 0 <= i < all.len() implies is_one_line(#[trigger] all[i]) by {
        if i < hs.len() {
            assert(is_header_text(hs[i].1));
            lemma_written_header(Reading { headers: Map::empty(), summary: None }, hs[i].0, hs[i].1);
        } else if i == hs.len() {
            assert(is_one_line(s[0]));
            let l = "SUMMARY: "@ + s[0];
            assert(all[i] == l);
            assert forall|j: int| 0 <= j < l.len() implies l[j] != '\n' by {
                if j >= 9 {
                    assert(l[j] == s[0][j - 9]);
                    assert(s[0].contains(s[0][j - 9]));
                }
            }
            assert(l.last() == s[0].last());
        } else {
            assert(all[i] == s[i - hs.len()]);
        }
    }
    law_export_reads_back(all);
    lemma_headers_read(hs);
    assert(ls.drop_last() =~= hl);
    lemma_summary_read(read_lines(hl), ls, s, s.len() as int);
    assert(all =~= ls + s.subrange(1, s.len() as int));
    assert(s.take(s.len() as int) =~= s);
    lemma_joined_ends(s, "\n"@);
    lemma_own_trim_is_bare(s[0]);
    crate::code_index::scope::lemma_trim_noop(join(s, "\n"@));
}

/// The headers and then one more line of its own.
pub open spec fn headers_and(hs: Seq<(usize, Seq<char>)>, line: Seq<char>) -> Seq<char> {
    framed(hs.map_values(|p: (usize, Seq<char>)| written_header(p.0, p.1)).push(line))
}

proof fn lemma_headers_and(hs: Seq<(usize, Seq<char>)>, line: Seq<char>)
    requires
        forall|i: int| 0 <= i < hs.len() ==> is_header_text((#[trigger] hs[i]).1),
        is_one_line(line),
    ensures
        read_lines(lines(headers_and(hs, line))) == read_line(Reading { headers: last_headers(hs), summary: None }, line),
{
    let hl = hs.map_values(|p: (usize, Seq<char>)| written_header(p.0, p.1));
    let all = hl.push(line);
    assert forall|i: int| 0 <= i < all.len() implies is_one_line(#[trigger] all[i]) by {
        if i < hs.len() {
            assert(is_header_text(hs[i].1));
            lemma_written_header(Reading { headers: Map::empty(), summary: None }, hs[i].0, hs[i].1);
        }
    }
    law_export_reads_back(all);
    lemma_headers_read(hs);
    assert(all.drop_last() =~= hl);
}

/// Before the summary a header line needs no hash.
pub proof fn law_header_needs_no_hash(hs: Seq<(usize, Seq<char>)>, n: usize, h: Seq<char>)
    requires
        forall|i: int| 0 <= i < hs.len() ==> is_header_text((#[trigger] hs[i]).1),
        is_header_text(h),
    ensures
        reply_headers(headers_and(hs, dec(n as int) + ": "@ + h)) == last_headers(hs).insert(n, h),
        reply_summary(headers_and(hs, dec(n as int) + ": "@ + h)) is None,
{
    let st = Reading { headers: last_headers(hs), summary: None };
    let line = dec(n as int) + ": "@ + h;
    let with = written_header(n, h);
    lemma_written_header(st, n, h);
    reveal_strlit("#");
    reveal_strlit(": ");
    reveal_strlit("SUMMARY");
    lemma_own_trim_is_bare(h);
    lemma_dec_nat(n as nat);
    assert(is_digit(dec(n as int)[0]));
    assert(line[0] == dec(n as int)[0]);
    assert(line.last() == h.last());
    assert(with.skip(1) =~= line);
    assert(with[0] == '#');
    assert(with.last() == h.last());
    crate::code_index::scope::lemma_trim_noop(with);
    crate::code_index::scope::lemma_trim_noop(line);
    assert(skip_marks(line) == line);
    assert(!starts_with(line, "SUMMARY"@)) by {
        if starts_with(line, "SUMMARY"@) {
            assert(line.take("SUMMARY"@.len() as int)[0] == line[0]);
            assert("SUMMARY"@[0] == 'S');
        }
    }
    assert(is_one_line(line)) by {
        assert forall|j: int| 0 <= j < line.len() implies line[j] != '\n' by {
            assert(line[j] == with[j + 1]);
            assert(with.contains(with[j + 1]));
        }
    }
    lemma_written_header(Reading { headers: st.headers, summary: Some(Seq::empty()) }, n, h);
    assert(header_line(line) is Some);
    assert(read_line(st, line) == read_line(st, with)) by {
        assert(skip_marks(with) == line) by {
            assert(with.drop_first() =~= line);
        }
    }
    lemma_headers_and(hs, line);
}

/// Whether all characters of a text are marks that Markdown puts before or
/// around a title.
pub open spec fn all_marks(m: Seq<char>) -> bool {
    forall|i: int| 0 <= i < m.len() ==> (#[trigger] m[i] == '#' || m[i] == '*' || m[i] == ' ')
}

/// A number of asterisks.
pub open spec fn stars(n: nat) -> Seq<char> {
    Seq::new(n, |i: int| '*')
}

proof fn lemma_marks_off(m: Seq<char>, s: Seq<char>)
    requires
        all_marks(m),
        s.len() > 0 ==> s[0] != '#' && s[0] != '*' && s[0] != ' ',
    ensures
        skip_marks(m + s) == s,
    decreases m.len(),
{
    if m.len() > 0 {
        assert((m + s)[0] == m[0]);
        assert((m + s).drop_first() =~= m.drop_first() + s);
        assert forall|i: int| 0 <= i < m.drop_first().len() implies (#[trigger] m.drop_first()[i] == '#' || m.drop_first()[i] == '*'
            || m.drop_first()[i] == ' ') by {
            assert(m.drop_first()[i] == m[i + 1]);
        }
        lemma_marks_off(m.drop_first(), s);
    } else {
        assert(m + s =~= s);
    }
}

proof fn lemma_stars_off(n: nat, s: Seq<char>)
    requires
        s.len() > 0 ==> s[0] != '*',
    ensures
        trim_start_of(stars(n) + s, '*', '*') == s,
    decreases n,
{
    if n > 0 {
        assert((stars(n) + s)[0] == '*');
        assert((stars(n) + s).drop_first() =~= stars((n - 1) as nat) + s);
        lemma_stars_off((n - 1) as nat, s);
    } else {
        assert(stars(n) + s =~= s);
    }
}

/// The summary's marker is read with Markdown marks before it and asterisks
/// around its colon.
pub proof fn law_marker_may_be_dressed(hs: Seq<(usize, Seq<char>)>, m: Seq<char>, a: nat, b: nat, s: Seq<char>)
    requires
        forall|i: int| 0 <= i < hs.len() ==> is_header_text((#[trigger] hs[i]).1),
        is_header_text(s),
        all_marks(m),
        m.len() > 0 ==> m[0] != ' ',
    ensures
        reply_summary(headers_and(hs, m + "SUMMARY"@ + stars(a) + ":"@ + stars(b) + " "@ + s)) == Some(s),
        reply_headers(headers_and(hs, m + "SUMMARY"@ + stars(a) + ":"@ + stars(b) + " "@ + s)) == last_headers(hs),
{
    let line = m + "SUMMARY"@ + stars(a) + ":"@ + stars(b) + " "@ + s;
    reveal_strlit("SUMMARY");
    reveal_strlit(":");
    reveal_strlit(" ");
    lemma_own_trim_is_bare(s);
    assert(line.last() == s.last());
    if m.len() > 0 {
        assert(line[0] == m[0]);
        assert(!is_space('#') && !is_space('*'));
    } else {
        assert(line[0] == 'S');
    }
    crate::code_index::scope::lemma_trim_noop(line);
    let t = "SUMMARY"@ + stars(a) + ":"@ + stars(b) + " "@ + s;
    assert(line =~= m + t);
    assert(t[0] == 'S');
    lemma_marks_off(m, t);
    assert(t.take(7) =~= "SUMMARY"@);
    let u = ":"@ + stars(b) + " "@ + s;
    assert(t.skip(7) =~= stars(a) + u);
    lemma_stars_off(a, u);
    let w = " "@ + s;
    assert(u.skip(1) =~= stars(b) + w);
    lemma_stars_off(b, w);
    let sp = seq![' '];
    let none: Seq<char> = Seq::empty();
    assert(w =~= sp + s + none);
    assert(all_space(sp));
    law_trim_of_padded(sp, s, none);
    assert(marker(line) == Some(s));
    assert(is_one_line(line)) by {
        assert forall|j: int| 0 <= j < line.len() implies line[j] != '\n' by {
            let k = line.len() - s.len();
            if j < m.len() {
                assert(line[j] == m[j]);
            } else if j >= k {
                assert(line[j] == s[j - k]);
                assert(s.contains(s[j - k]));
            } else if j < m.len() + 7 {
                assert(line[j] == "SUMMARY"@[j - m.len()]);
            } else if j < m.len() + 7 + a {
                assert(line[j] == '*');
            }
        }
    }
    lemma_headers_and(hs, line);
    let one = seq![s];
    assert(join(one, "\n"@) == s);
}

/// A line that begins like a tool call is one, whatever white space stands
/// before it and whatever comes behind.
pub proof fn law_tool_lines_are_seen(a: Seq<char>, rest: Seq<char>)
    requires
        all_space(a),
    ensures
        is_tool_line(a + ("**Tool:"@ + rest)),
        is_tool_line(a + ("<function_calls>"@ + rest)),
        is_tool_line(a + ("<invoke "@ + rest)),
{
    reveal_strlit("**Tool:");
    reveal_strlit("<function_calls>");
    reveal_strlit("<invoke ");
    let x = "**Tool:"@ + rest;
    let y = "<function_calls>"@ + rest;
    let z = "<invoke "@ + rest;
    assert(x[0] == '*' && y[0] == '<' && z[0] == '<');
    lemma_trim_start_pad(a, x);
    lemma_trim_start_pad(a, y);
    lemma_trim_start_pad(a, z);
    assert(x.take("**Tool:"@.len() as int) =~= "**Tool:"@);
    assert(y.take("<function_calls>"@.len() as int) =~= "<function_calls>"@);
    assert(z.take("<invoke "@.len() as int) =~= "<invoke "@);
}

// --- prompts ---

/// What a header prompt shows of the chunk with number `n`.
pub open spec fn shown_chunk(n: int, c: ChunkMeta) -> Seq<char> {
    "#"@ + dec(n) + " "@ + c.kind@ + " "@ + (match c.symbol {
        Some(s) => s@,
        None => "-"@,
    }) + " lines "@ + dec(c.start_line as int) + "-"@ + dec(c.end_line as int) + "\n"@
}

proof fn lemma_chunk_lines_hold(cs: Seq<ChunkMeta>, i: int)
    requires
        0 <= i < cs.len(),
    ensures
        contains(chunk_lines(cs), shown_chunk(i + 1, cs[i])),
    decreases cs.len(),
{
    let none: Seq<char> = Seq::empty();
    let p = chunk_lines(cs.drop_last());
    let l = shown_chunk(cs.len() as int, cs.last());
    assert(chunk_lines(cs) =~= p + l + none);
    if i == cs.len() - 1 {
        lemma_stands_between(p, l, none);
    } else {
        lemma_chunk_lines_hold(cs.drop_last(), i);
        assert(chunk_lines(cs) =~= none + p + l);
        lemma_stands_in_part(none, p, l, shown_chunk(i + 1, cs[i]));
    }
}

/// A header prompt names every chunk by its number, kind, symbol and lines.
pub proof fn law_header_prompt_names_every_chunk(project: Seq<char>, path: Seq<char>, text: Seq<char>, cs: Seq<ChunkMeta>)
    ensures
        forall|i: int| 0 <= i < cs.len() ==> contains(header_prompt(project, path, text, cs), shown_chunk(i + 1, #[trigger] cs[i])),
{
    assert forall|i: int| 0 <= i < cs.len() implies contains(
        header_prompt(project, path, text, cs),
        shown_chunk(i + 1, #[trigger] cs[i]),
    ) by {
        lemma_chunk_lines_hold(cs, i);
        lemma_stands_in_part(
            file_block(project, path, text) + "\n\nChunks:\n"@,
            chunk_lines(cs),
            HEADER_PROMPT_TAIL@,
            shown_chunk(i + 1, cs[i]),
        );
    }
}

/// A header prompt and a summary prompt begin with the project, the path and
/// the file's text, all of it where it has 24,000 characters at most, else its
/// first 24,000.
pub proof fn law_prompts_show_the_text(project: Seq<char>, path: Seq<char>, text: Seq<char>, cs: Seq<ChunkMeta>)
    ensures
        text.len() <= 24_000 ==> file_block(project, path, text) == "Project: "@ + project + "\nFile: "@ + path + "\n\n"@ + text,
        starts_with(
            header_prompt(project, path, text, cs),
            "Project: "@ + project + "\nFile: "@ + path + "\n\n"@ + text.take(
                if text.len() <= 24_000 {
                    text.len() as int
                } else {
                    24_000
                },
            ),
        ),
        text.len() > 24_000 ==> contains(file_block(project, path, text), "truncated at 24000 characters"@),
{
    let shown = text.take(if text.len() <= 24_000 {
        text.len() as int
    } else {
        24_000
    });
    if text.len() <= 24_000 {
        assert(text.take(text.len() as int) =~= text);
        assert(file_block(project, path, text) =~= "Project: "@ + project + "\nFile: "@ + path + "\n\n"@ + text);
    }
    let p = "Project: "@ + project + "\nFile: "@ + path + "\n\n"@ + shown;
    assert(file_block(project, path, text).take(p.len() as int) =~= p);
    assert(header_prompt(project, path, text, cs).take(p.len() as int) =~= file_block(project, path, text).take(p.len() as int));
    if text.len() > 24_000 {
        lemma_cap_in_words();
        let a = "\n\n[... "@;
        let w = "truncated at 24000 characters"@;
        let z = "; file continues]"@;
        reveal_strlit("\n\n[... ");
        reveal_strlit("truncated at 24000 characters");
        reveal_strlit("; file continues]");
        reveal_strlit("\n\n[... truncated at ");
        reveal_strlit(" characters; file continues]");
        assert("\n\n[... truncated at "@ + dec(24_000) + " characters; file continues]"@ =~= a + w + z);
        assert(file_block(project, path, text) =~= (p + a) + w + z);
        lemma_stands_between(p + a, w, z);
    }
}

proof fn lemma_cap_in_words()
    ensures
        dec(24_000) =~= seq!['2', '4', '0', '0', '0'],
{
    reveal_with_fuel(dec_nat, 6);
    assert(dec_nat(24_000) =~= seq!['2', '4', '0', '0', '0']);
}

/// What a chunk is embedded by begins with its header and ends with its text,
/// with the text's first line between them; where that is longer than the cap,
/// it is cut there and nowhere else.
pub proof fn law_embedding_holds_header_and_text(h: Option<Seq<char>>, l: Seq<char>, rest: Seq<char>, cap: nat)
    requires
        is_one_line(l),
    ensures
        ({
            let text = l + "\n"@ + rest;
            let head = if h is Some { h->0 } else { Seq::empty() };
            let whole = head + "\n"@ + l + "\n"@ + text;
            &&& whole.len() <= cap ==> embedding_text(h, text, cap as int) == whole
            &&& whole.len() > cap ==> embedding_text(h, text, cap as int).len() == cap && starts_with(
                whole,
                embedding_text(h, text, cap as int),
            )
        }),
        l.len() > 0 ==> embedding_text(h, l, (cap + 2 * l.len() + 2 + (if h is Some { (h->0).len() } else { 0 })) as int) == (if h is Some {
            h->0
        } else {
            Seq::empty()
        }) + "\n"@ + l + "\n"@ + l,
{
    let text = l + "\n"@ + rest;
    reveal_strlit("\n");
    lemma_find_char(text, '\n');
    let n = l.len() as int;
    assert(text[n] == '\n');
    assert forall|j: int| 0 <= j < n implies text[j] != '\n' by {
        assert(text[j] == l[j]);
        assert(l.contains(l[j]));
    }
    assert(find_char(text, '\n') == n);
    assert(text.take(n) =~= l);
    assert(lines(text)[0] == l);
    assert(first_line(text) == l);
    let head = if h is Some { h->0 } else { Seq::empty() };
    let whole = head + "\n"@ + l + "\n"@ + text;
    if whole.len() > cap {
        let e = embedding_text(h, text, cap as int);
        assert(whole.take(e.len() as int) =~= e);
    }
    if l.len() > 0 {
        law_one_line(l);
        assert(first_line(l) == l);
    }
}

} // verus!
