//! Laws of an improvement run's result: the block that ends its output, and
//! the commit message that is made of it.

use vstd::prelude::*;

use crate::code_index::scope::lemma_trim_noop;
use crate::export::{framed, is_one_line, law_export_reads_back};
use crate::improve::result::{
    commit_name, commit_names, listed_file, listed_files, message_of, read_block, read_block_line, result_of, Action,
    BlockReading, Field, ResultView,
};
use crate::laws::path::{is_file_name, law_file_in_a_directory};
use crate::laws::text::{
    all_space, is_bare, law_join_undone_by_split, law_lines_append, law_trim_of_padded, lemma_stands_between,
    lemma_stands_in_part,
};
use crate::letters::{ascii_lower, ascii_lower_all, same_letters, starts_with_letters};
use crate::text::{
    contains, is_space, join, lemma_rfind_upto, lines, occurs_at, rfind, split, starts_with, trim, trim_end_of,
    trim_start_of,
};

verus! {

/// Whether a text can stand on a line behind the word that says what it is.
pub open spec fn is_field_text(s: Seq<char>) -> bool {
    s.len() > 0 && is_bare(s) && !s.contains('\n')
}

/// Whether a line goes on with the text before it: it says nothing of its own.
pub open spec fn goes_on(s: Seq<char>) -> bool {
    &&& is_field_text(s)
    &&& !starts_with(s, "```"@)
    &&& !starts_with_letters(s, "action:"@)
    &&& !starts_with_letters(s, "files:"@)
    &&& !starts_with_letters(s, "rationale:"@)
    &&& !starts_with_letters(s, "evidence:"@)
}

/// Whether a text can be listed as a file.
pub open spec fn is_listed_text(f: Seq<char>) -> bool {
    &&& is_field_text(f)
    &&& !f.contains(',')
    &&& f[0] != '`' && f.last() != '`'
    &&& !same_letters(f, "none"@)
}

proof fn lemma_word_first(w: Seq<char>, key: Seq<char>, rest: Seq<char>)
    requires
        same_letters(w, key),
    ensures
        starts_with_letters(w + rest, key),
        (w + rest).skip(key.len() as int) == rest,
{
    assert(ascii_lower_all(w).len() == ascii_lower_all(key).len());
    assert((w + rest).take(key.len() as int) =~= w);
    assert((w + rest).skip(key.len() as int) =~= rest);
}

proof fn lemma_other_word(w: Seq<char>, rest: Seq<char>, key: Seq<char>)
    requires
        w.len() > 0,
        key.len() > 0,
        ascii_lower(w[0]) != ascii_lower(key[0]),
    ensures
        !starts_with_letters(w + rest, key),
{
    let s = w + rest;
    if starts_with_letters(s, key) {
        let h = s.take(key.len() as int);
        assert(ascii_lower_all(h)[0] == ascii_lower(h[0]));
        assert(ascii_lower_all(key)[0] == ascii_lower(key[0]));
        assert(h[0] == w[0]);
    }
}

proof fn lemma_padded(key: Seq<char>, s: Seq<char>)
    requires
        is_field_text(s),
        key.len() > 0,
        !is_space(key[0]),
        !key.contains('\n'),
    ensures
        trim(key + (" "@ + s)) == key + (" "@ + s),
        trim(" "@ + s) == s,
        is_one_line(key + (" "@ + s)),
        !(" "@ + s).contains('\n'),
{
    reveal_strlit(" ");
    let line = key + (" "@ + s);
    assert(line[0] == key[0]);
    assert(line.last() == s.last());
    lemma_trim_noop(line);
    let sp = seq![' '];
    let none: Seq<char> = Seq::empty();
    assert(all_space(sp));
    assert(" "@ + s =~= sp + s + none);
    law_trim_of_padded(sp, s, none);
    let k = key.len() as int;
    assert forall|j: int| 0 <= j < line.len() implies line[j] != '\n' by {
        if j < k {
            assert(line[j] == key[j]);
            assert(key.contains(key[j]));
        } else if j > k {
            assert(line[j] == s[j - k - 1]);
            assert(s.contains(s[j - k - 1]));
        }
    }
    assert forall|j: int| 0 <= j < (" "@ + s).len() implies (" "@ + s)[j] != '\n' by {
        assert((" "@ + s)[j] == line[k + j]);
    }
}

/// Each of the four lines of a block is read into its field.
proof fn lemma_field_lines(st: BlockReading, a: Action, fs: Seq<char>, r: Seq<char>, e: Seq<char>)
    requires
        is_field_text(fs),
        is_field_text(r),
        is_field_text(e),
    ensures
        is_one_line("ACTION:"@ + (" "@ + a.word())),
        is_one_line("FILES:"@ + (" "@ + fs)),
        is_one_line("RATIONALE:"@ + (" "@ + r)),
        is_one_line("EVIDENCE:"@ + (" "@ + e)),
        read_block_line(st, "ACTION:"@ + (" "@ + a.word())) == (BlockReading { action: Some(a), field: Field::Nothing, ..st }),
        read_block_line(st, "FILES:"@ + (" "@ + fs)) == (BlockReading {
            files: st.files + listed_files(split(" "@ + fs, ',')),
            field: Field::Nothing,
            ..st
        }),
        read_block_line(st, "RATIONALE:"@ + (" "@ + r)) == (BlockReading { rationale: r, field: Field::Rationale, ..st }),
        read_block_line(st, "EVIDENCE:"@ + (" "@ + e)) == (BlockReading { evidence: e, field: Field::Evidence, ..st }),
{
    reveal_strlit("ACTION:");
    reveal_strlit("FILES:");
    reveal_strlit("RATIONALE:");
    reveal_strlit("EVIDENCE:");
    reveal_strlit("action:");
    reveal_strlit("files:");
    reveal_strlit("rationale:");
    reveal_strlit("evidence:");
    reveal_strlit("edit");
    reveal_strlit("create");
    reveal_strlit("revert");
    reveal_strlit("none");
    reveal_strlit("```");
    assert(ascii_lower_all("ACTION:"@) =~= ascii_lower_all("action:"@));
    assert(ascii_lower_all("FILES:"@) =~= ascii_lower_all("files:"@));
    assert(ascii_lower_all("RATIONALE:"@) =~= ascii_lower_all("rationale:"@));
    assert(ascii_lower_all("EVIDENCE:"@) =~= ascii_lower_all("evidence:"@));
    let w = a.word();
    assert(is_field_text(w));
    lemma_padded("ACTION:"@, w);
    lemma_padded("FILES:"@, fs);
    lemma_padded("RATIONALE:"@, r);
    lemma_padded("EVIDENCE:"@, e);
    lemma_no_fence("ACTION:"@, " "@ + w);
    lemma_no_fence("FILES:"@, " "@ + fs);
    lemma_no_fence("RATIONALE:"@, " "@ + r);
    lemma_no_fence("EVIDENCE:"@, " "@ + e);
    crate::improve::result::law_action_word_reads_back(a);
    lemma_word_first("ACTION:"@, "action:"@, " "@ + w);
    lemma_word_first("FILES:"@, "files:"@, " "@ + fs);
    lemma_word_first("RATIONALE:"@, "rationale:"@, " "@ + r);
    lemma_word_first("EVIDENCE:"@, "evidence:"@, " "@ + e);
    lemma_other_word("FILES:"@, " "@ + fs, "action:"@);
    lemma_other_word("RATIONALE:"@, " "@ + r, "action:"@);
    lemma_other_word("RATIONALE:"@, " "@ + r, "files:"@);
    lemma_other_word("EVIDENCE:"@, " "@ + e, "action:"@);
    lemma_other_word("EVIDENCE:"@, " "@ + e, "files:"@);
    lemma_other_word("EVIDENCE:"@, " "@ + e, "rationale:"@);
}

proof fn lemma_no_fence(key: Seq<char>, rest: Seq<char>)
    requires
        key.len() > 0,
        key[0] != '`',
    ensures
        !starts_with(key + rest, "```"@),
{
    reveal_strlit("```");
    let s = key + rest;
    if starts_with(s, "```"@) {
        assert(s.take(3)[0] == s[0]);
        assert("```"@[0] == '`');
    }
}

proof fn lemma_spaced(fs: Seq<Seq<char>>)
    requires
        fs.len() > 0,
    ensures
        " "@ + join(fs, ", "@) == join(fs.map_values(|f: Seq<char>| " "@ + f), seq![',']),
    decreases fs.len(),
{
    reveal_strlit(", ");
    reveal_strlit(" ");
    let sp = fs.map_values(|f: Seq<char>| " "@ + f);
    if fs.len() == 1 {
        assert(sp[0] == " "@ + fs[0]);
    } else {
        lemma_spaced(fs.drop_last());
        assert(sp.drop_last() =~= fs.drop_last().map_values(|f: Seq<char>| " "@ + f));
        assert(sp.last() == " "@ + fs.last());
        assert(" "@ + join(fs, ", "@) =~= (" "@ + join(fs.drop_last(), ", "@)) + seq![','] + (" "@ + fs.last()));
    }
}

proof fn lemma_listed(fs: Seq<Seq<char>>)
    requires
        forall|i: int| 0 <= i < fs.len() ==> is_listed_text(#[trigger] fs[i]),
    ensures
        listed_files(fs.map_values(|f: Seq<char>| " "@ + f)) == fs,
    decreases fs.len(),
{
    let sp = fs.map_values(|f: Seq<char>| " "@ + f);
    if fs.len() > 0 {
        let d = fs.drop_last();
        assert forall|i: int| 0 <= i < d.len() implies is_listed_text(#[trigger] d[i]) by {
            assert(d[i] == fs[i]);
        }
        lemma_listed(d);
        assert(sp.drop_last() =~= d.map_values(|f: Seq<char>| " "@ + f));
        let f = fs[fs.len() - 1];
        assert(is_listed_text(f));
        reveal_strlit(" ");
        let one = seq![' '];
        let none: Seq<char> = Seq::empty();
        assert(all_space(one));
        assert(" "@ + f =~= one + f + none);
        law_trim_of_padded(one, f, none);
        assert(trim_start_of(f, '`', '`') == f);
        assert(trim_end_of(f, '`', '`') == f);
        assert(listed_file(sp.last()) == Some(f));
        assert(d.push(f) =~= fs);
    } else {
        assert(listed_files(sp) =~= fs);
    }
}

/// The files of a line, separated by commas, are all read.
proof fn lemma_files_line(fs: Seq<Seq<char>>)
    requires
        fs.len() > 0,
        forall|i: int| 0 <= i < fs.len() ==> is_listed_text(#[trigger] fs[i]),
    ensures
        listed_files(split(" "@ + join(fs, ", "@), ',')) == fs,
        is_field_text(join(fs, ", "@)),
{
    let sp = fs.map_values(|f: Seq<char>| " "@ + f);
    lemma_spaced(fs);
    reveal_strlit(" ");
    assert forall|i: int| 0 <= i < sp.len() implies !(#[trigger] sp[i]).contains(',') by {
        let f = fs[i];
        assert(is_listed_text(f));
        assert(sp[i] == " "@ + f);
        assert forall|j: int| 0 <= j < sp[i].len() implies sp[i][j] != ',' by {
            if j > 0 {
                assert(sp[i][j] == f[j - 1]);
                assert(f.contains(f[j - 1]));
            }
        }
    }
    law_join_undone_by_split(sp, ',');
    lemma_listed(fs);
    lemma_joined_is_text(fs);
}

proof fn lemma_joined_is_text(fs: Seq<Seq<char>>)
    requires
        fs.len() > 0,
        forall|i: int| 0 <= i < fs.len() ==> is_listed_text(#[trigger] fs[i]),
    ensures
        is_field_text(join(fs, ", "@)),
    decreases fs.len(),
{
    reveal_strlit(", ");
    let j = join(fs, ", "@);
    assert(is_listed_text(fs[fs.len() - 1]));
    if fs.len() > 1 {
        let d = fs.drop_last();
        assert forall|i: int| 0 <= i < d.len() implies is_listed_text(#[trigger] d[i]) by {
            assert(d[i] == fs[i]);
        }
        lemma_joined_is_text(d);
        let a = join(d, ", "@);
        let f = fs.last();
        assert(j[0] == a[0]);
        assert(j.last() == f.last());
        assert forall|k: int| 0 <= k < j.len() implies j[k] != '\n' by {
            if k < a.len() {
                assert(j[k] == a[k]);
                assert(a.contains(a[k]));
            } else if k >= a.len() + 2 {
                assert(j[k] == f[k - a.len() - 2]);
                assert(f.contains(f[k - a.len() - 2]));
            }
        }
    }
}

/// The lines of a result block: the action, the files where there are any, the
/// rationale and the evidence, each of one or more lines.
pub open spec fn block_lines(a: Action, fs: Seq<Seq<char>>, r: Seq<Seq<char>>, e: Seq<Seq<char>>) -> Seq<Seq<char>> {
    seq!["ACTION:"@ + (" "@ + a.word())] + (if fs.len() == 0 {
        Seq::empty()
    } else {
        seq!["FILES:"@ + (" "@ + join(fs, ", "@))]
    }) + (seq!["RATIONALE:"@ + (" "@ + r[0])] + r.drop_first()) + (seq!["EVIDENCE:"@ + (" "@ + e[0])] + e.drop_first())
}

proof fn lemma_goes_on(ls: Seq<Seq<char>>, t: Seq<Seq<char>>, k: int)
    requires
        ls.len() > 0,
        t.len() > 0,
        t[0].len() > 0,
        forall|i: int| 0 < i < t.len() ==> goes_on(#[trigger] t[i]),
        1 <= k <= t.len(),
        read_block(ls).field == Field::Rationale ==> read_block(ls).rationale == t[0],
        read_block(ls).field == Field::Evidence ==> read_block(ls).evidence == t[0],
        read_block(ls).field != Field::Nothing,
    ensures
        read_block(ls).field == Field::Rationale ==> read_block(ls + t.subrange(1, k)) == (BlockReading {
            rationale: join(t.take(k), " "@),
            ..read_block(ls)
        }),
        read_block(ls).field == Field::Evidence ==> read_block(ls + t.subrange(1, k)) == (BlockReading {
            evidence: join(t.take(k), " "@),
            ..read_block(ls)
        }),
        join(t.take(k), " "@).len() > 0,
    decreases k,
{
    if k == 1 {
        assert(ls + t.subrange(1, 1) =~= ls);
        assert(t.take(1).len() == 1);
        assert(join(t.take(1), " "@) == t[0]);
    } else {
        lemma_goes_on(ls, t, k - 1);
        let now = ls + t.subrange(1, k);
        let line = t[k - 1];
        assert(goes_on(line));
        assert(now.drop_last() =~= ls + t.subrange(1, k - 1));
        assert(now.last() == line);
        lemma_trim_noop(line);
        assert(t.take(k).drop_last() =~= t.take(k - 1));
        assert(join(t.take(k), " "@) == join(t.take(k - 1), " "@) + " "@ + line);
    }
}

/// The marker begins with a letter that it has nowhere else.
proof fn lemma_marker_letters()
    ensures
        "IMPROVE-RESULT"@.len() == 14,
        "IMPROVE-RESULT"@[0] == 'I',
        forall|d: int| 0 < d < 14 ==> #[trigger] "IMPROVE-RESULT"@[d] != 'I',
{
    let m = "IMPROVE-RESULT"@;
    reveal_strlit("IMPROVE-RESULT");
    assert(m[0] == 'I');
    assert(m[1] == 'M');
    assert(m[2] == 'P');
    assert(m[3] == 'R');
    assert(m[4] == 'O');
    assert(m[5] == 'V');
    assert(m[6] == 'E');
    assert(m[7] == '-');
    assert(m[8] == 'R');
    assert(m[9] == 'E');
    assert(m[10] == 'S');
    assert(m[11] == 'U');
    assert(m[12] == 'L');
    assert(m[13] == 'T');
    assert forall|d: int| 0 < d < 14 implies #[trigger] m[d] != 'I' by {
        assert(d == 1 || d == 2 || d == 3 || d == 4 || d == 5 || d == 6 || d == 7 || d == 8 || d == 9 || d == 10 || d == 11 || d
            == 12 || d == 13);
    }
}

proof fn lemma_marker_is_last(pre: Seq<char>, block: Seq<char>)
    requires
        !contains(block, "IMPROVE-RESULT"@),
    ensures
        rfind(pre + "IMPROVE-RESULT"@ + block, "IMPROVE-RESULT"@) == pre.len(),
        (pre + "IMPROVE-RESULT"@ + block).skip(pre.len() as int + 14) == block,
{
    let m = "IMPROVE-RESULT"@;
    lemma_marker_letters();
    let s = pre + m + block;
    let n = pre.len() as int;
    lemma_rfind_upto(s, m, s.len() - 14);
    let k = rfind(s, m);
    assert(s.subrange(n, n + 14) =~= m);
    assert(occurs_at(s, m, n));
    assert(k >= n);
    if k > n {
        let w = s.subrange(k, k + 14);
        assert(w == m);
        if k < n + 14 {
            assert(w[0] == s[k]);
            assert(s[k] == m[k - n]);
        } else {
            assert(block.subrange(k - n - 14, k - n) =~= w);
            assert(occurs_at(block, m, k - n - 14));
        }
    }
    assert(s.skip(n + 14) =~= block);
}

/// Whether the parts of a result can be written as a block.
pub open spec fn is_writable(fs: Seq<Seq<char>>, r: Seq<Seq<char>>, e: Seq<Seq<char>>) -> bool {
    &&& forall|i: int| 0 <= i < fs.len() ==> is_listed_text(#[trigger] fs[i])
    &&& r.len() > 0
    &&& e.len() > 0
    &&& is_field_text(r[0])
    &&& is_field_text(e[0])
    &&& forall|i: int| 0 < i < r.len() ==> goes_on(#[trigger] r[i])
    &&& forall|i: int| 0 < i < e.len() ==> goes_on(#[trigger] e[i])
}

proof fn lemma_block_one_line(a: Action, fs: Seq<Seq<char>>, r: Seq<Seq<char>>, e: Seq<Seq<char>>)
    requires
        is_writable(fs, r, e),
    ensures
        forall|i: int| 0 <= i < block_lines(a, fs, r, e).len() ==> is_one_line(#[trigger] block_lines(a, fs, r, e)[i]),
{
    let ls = block_lines(a, fs, r, e);
    let files = if fs.len() == 0 { r[0] } else { join(fs, ", "@) };
    if fs.len() > 0 {
        lemma_files_line(fs);
    }
    lemma_field_lines(read_block(Seq::empty()), a, files, r[0], e[0]);
    let l2: Seq<Seq<char>> = if fs.len() == 0 {
        Seq::empty()
    } else {
        seq!["FILES:"@ + (" "@ + join(fs, ", "@))]
    };
    let k = 1 + l2.len();
    assert forall|i: int| 0 <= i < ls.len() implies is_one_line(#[trigger] ls[i]) by {
        if 0 < i < k {
            assert(ls[i] == l2[0]);
        } else if k < i < k + r.len() {
            assert(ls[i] == r[i - k]);
            assert(goes_on(r[i - k]));
        } else if i > k + r.len() {
            assert(ls[i] == e[i - k - r.len()]);
            assert(goes_on(e[i - k - r.len()]));
        }
    }
}

/// The first two lines of a block, and what is read of them.
proof fn lemma_block_begins(z: Seq<Seq<char>>, a: Action, fs: Seq<Seq<char>>, t: Seq<char>)
    requires
        read_block(z) == read_block(Seq::empty()),
        forall|i: int| 0 <= i < fs.len() ==> is_listed_text(#[trigger] fs[i]),
        is_field_text(t),
    ensures
        read_block(
            z + seq!["ACTION:"@ + (" "@ + a.word())] + (if fs.len() == 0 {
                Seq::empty()
            } else {
                seq!["FILES:"@ + (" "@ + join(fs, ", "@))]
            }),
        ) == (BlockReading {
            refused: false,
            action: Some(a),
            files: fs,
            rationale: Seq::empty(),
            evidence: Seq::empty(),
            field: Field::Nothing,
        }),
{
    let start = read_block(z);
    let l1 = "ACTION:"@ + (" "@ + a.word());
    let b1 = z + seq![l1];
    assert(b1.drop_last() =~= z);
    assert(b1.last() == l1);
    lemma_field_lines(start, a, t, t, t);
    let s1 = read_block(b1);
    if fs.len() == 0 {
        let none: Seq<Seq<char>> = Seq::empty();
        assert(b1 + none =~= b1);
        assert(s1.files =~= fs);
    } else {
        let files = join(fs, ", "@);
        let l2 = "FILES:"@ + (" "@ + files);
        let b2 = b1 + seq![l2];
        lemma_files_line(fs);
        lemma_field_lines(s1, a, files, t, t);
        assert(b2.drop_last() =~= b1);
        assert(b2.last() == l2);
        assert(s1.files + fs =~= fs);
    }
}

/// What is read of a rationale or an evidence of one or more lines.
proof fn lemma_text_read(b: Seq<Seq<char>>, t: Seq<Seq<char>>)
    requires
        t.len() > 0,
        is_field_text(t[0]),
        forall|i: int| 0 < i < t.len() ==> goes_on(#[trigger] t[i]),
    ensures
        read_block(b + (seq!["RATIONALE:"@ + (" "@ + t[0])] + t.drop_first())) == (BlockReading {
            rationale: join(t, " "@),
            field: Field::Rationale,
            ..read_block(b)
        }),
        read_block(b + (seq!["EVIDENCE:"@ + (" "@ + t[0])] + t.drop_first())) == (BlockReading {
            evidence: join(t, " "@),
            field: Field::Evidence,
            ..read_block(b)
        }),
{
    let n = t.len() as int;
    let l3 = seq!["RATIONALE:"@ + (" "@ + t[0])];
    let l4 = seq!["EVIDENCE:"@ + (" "@ + t[0])];
    lemma_field_lines(read_block(b), Action::Edit, t[0], t[0], t[0]);
    assert((b + l3).drop_last() =~= b);
    assert((b + l3).last() == l3[0]);
    assert((b + l4).drop_last() =~= b);
    assert((b + l4).last() == l4[0]);
    lemma_goes_on(b + l3, t, n);
    lemma_goes_on(b + l4, t, n);
    assert(t.take(n) =~= t);
    assert(b + l3 + t.subrange(1, n) =~= b + (l3 + t.drop_first()));
    assert(b + l4 + t.subrange(1, n) =~= b + (l4 + t.drop_first()));
}

/// A result block reads back whole, whatever the output says before it: the
/// action, every file, and the rationale and the evidence with the lines that
/// go on with them.
pub proof fn law_result_reads_back(
    pre: Seq<char>,
    a: Action,
    fs: Seq<Seq<char>>,
    r: Seq<Seq<char>>,
    e: Seq<Seq<char>>,
)
    requires
        is_writable(fs, r, e),
        !contains("\n"@ + framed(block_lines(a, fs, r, e)), "IMPROVE-RESULT"@),
    ensures
        result_of(pre + "IMPROVE-RESULT"@ + ("\n"@ + framed(block_lines(a, fs, r, e)))) == Some(
            ResultView { action: a, files: fs, rationale: join(r, " "@), evidence: join(e, " "@) },
        ),
{
    let ls = block_lines(a, fs, r, e);
    let block = "\n"@ + framed(ls);
    lemma_marker_is_last(pre, block);
    lemma_block_one_line(a, fs, r, e);
    law_export_reads_back(ls);
    let none: Seq<char> = Seq::empty();
    let z = seq![none];
    lemma_blank_line(framed(ls));
    assert(lines(block) == z + ls);
    assert(z.drop_last() =~= Seq::empty());
    lemma_trim_noop(none);
    lemma_block_begins(z, a, fs, r[0]);
    let l2: Seq<Seq<char>> = if fs.len() == 0 {
        Seq::empty()
    } else {
        seq!["FILES:"@ + (" "@ + join(fs, ", "@))]
    };
    let b2 = z + seq!["ACTION:"@ + (" "@ + a.word())] + l2;
    let more = seq!["RATIONALE:"@ + (" "@ + r[0])] + r.drop_first();
    let last = seq!["EVIDENCE:"@ + (" "@ + e[0])] + e.drop_first();
    lemma_text_read(b2, r);
    lemma_text_read(b2 + more, e);
    assert(z + ls =~= b2 + more + last);
}

proof fn lemma_blank_line(s: Seq<char>)
    ensures
        lines("\n"@ + s) == seq![Seq::<char>::empty()] + lines(s),
{
    reveal_strlit("\n");
    let none: Seq<char> = Seq::empty();
    law_lines_append("\n"@, s);
    crate::text::lemma_find_char("\n"@, '\n');
    assert("\n"@.take(0) =~= none);
    assert("\n"@.skip(1) =~= none);
    assert(lines(none) =~= Seq::empty());
    assert(lines("\n"@) =~= seq![none]);
}

/// Output without a result block has no result.
pub proof fn law_no_block_no_result(output: Seq<char>)
    requires
        !contains(output, "IMPROVE-RESULT"@),
    ensures
        result_of(output) is None,
{
    reveal_strlit("IMPROVE-RESULT");
    lemma_rfind_upto(output, "IMPROVE-RESULT"@, output.len() - 14);
}

// --- the commit message ---

/// A commit names a file by its own name, and a skill by its directory's.
pub proof fn law_names_in_a_commit(d: Seq<char>, e: Seq<char>, n: Seq<char>)
    requires
        d.len() > 0,
        is_file_name(e),
        is_file_name(n),
    ensures
        n != "SKILL.md"@ ==> commit_name(d + "/"@ + n) == Some(n),
        commit_name(d + "/"@ + e + "/"@ + "SKILL.md"@) == Some(e + "/SKILL.md"@),
{
    reveal_strlit("SKILL.md");
    reveal_strlit(".");
    reveal_strlit("..");
    let k = "SKILL.md"@;
    assert(k.len() == 8 && k[0] == 'S');
    assert(is_file_name(k));
    law_file_in_a_directory(d, e, n);
    law_file_in_a_directory(d, e, k);
    law_file_in_a_directory(d + "/"@ + e, e, k);
}

proof fn lemma_joined_holds(ps: Seq<Seq<char>>, sep: Seq<char>, i: int)
    requires
        0 <= i < ps.len(),
    ensures
        contains(join(ps, sep), ps[i]),
    decreases ps.len(),
{
    let none: Seq<char> = Seq::empty();
    if ps.len() == 1 {
        assert(none + ps[0] + none =~= ps[0]);
        lemma_stands_between(none, ps[0], none);
    } else {
        let a = join(ps.drop_last(), sep);
        if i == ps.len() - 1 {
            assert(join(ps, sep) =~= (a + sep) + ps.last() + none);
            lemma_stands_between(a + sep, ps.last(), none);
        } else {
            lemma_joined_holds(ps.drop_last(), sep, i);
            assert(join(ps, sep) =~= none + a + (sep + ps.last()));
            lemma_stands_in_part(none, a, sep + ps.last(), ps[i]);
        }
    }
}

proof fn lemma_commit_names(files: Seq<Seq<char>>, i: int)
    requires
        0 <= i < files.len(),
        commit_name(files[i]) is Some,
    ensures
        commit_names(files).contains(commit_name(files[i])->0),
    decreases files.len(),
{
    let d = files.drop_last();
    let n = commit_name(files[i])->0;
    let all = commit_names(files);
    if i == files.len() - 1 {
        assert(all.last() == n);
        assert(all.contains(all.last()));
    } else {
        assert(d[i] == files[i]);
        lemma_commit_names(d, i);
        let rest = commit_names(d);
        let k = choose|k: int| 0 <= k < rest.len() && rest[k] == n;
        assert(all[k] == n);
    }
}

/// A commit message says the action, names every file, and holds the rationale
/// and the evidence.
pub proof fn law_message_says_it_all(r: ResultView)
    ensures
        starts_with(message_of(r), "improve: "@ + r.action.word()),
        contains(message_of(r), trim(r.rationale)),
        contains(message_of(r), "\n\nevidence: "@ + (if trim(r.evidence).len() == 0 { "none"@ } else { trim(r.evidence) }) + "\n"@),
        forall|i: int|
            0 <= i < r.files.len() && commit_name(#[trigger] r.files[i]) is Some ==> contains(
                message_of(r),
                commit_name(r.files[i])->0,
            ),
{
    let m = message_of(r);
    let h = "improve: "@ + r.action.word();
    let ns = commit_names(r.files);
    let names = if ns.len() == 0 {
        Seq::empty()
    } else {
        " "@ + join(ns, ", "@)
    };
    let ev = if trim(r.evidence).len() == 0 { "none"@ } else { trim(r.evidence) };
    let tail = "\n\nevidence: "@ + ev + "\n"@;
    let none: Seq<char> = Seq::empty();
    assert(m.take(h.len() as int) =~= h);
    assert(m =~= (h + names + "\n\n"@) + trim(r.rationale) + tail);
    lemma_stands_between(h + names + "\n\n"@, trim(r.rationale), tail);
    assert(m =~= (h + names + "\n\n"@ + trim(r.rationale)) + tail + none);
    lemma_stands_between(h + names + "\n\n"@ + trim(r.rationale), tail, none);
    assert forall|i: int| 0 <= i < r.files.len() && commit_name(#[trigger] r.files[i]) is Some implies contains(
        m,
        commit_name(r.files[i])->0,
    ) by {
        let n = commit_name(r.files[i])->0;
        lemma_commit_names(r.files, i);
        let k = choose|k: int| 0 <= k < ns.len() && ns[k] == n;
        lemma_joined_holds(ns, ", "@, k);
        let rest = "\n\n"@ + trim(r.rationale) + tail;
        assert(m =~= (h + " "@) + join(ns, ", "@) + rest);
        lemma_stands_in_part(h + " "@, join(ns, ", "@), rest, n);
    }
}

} // verus!
