//! Laws of the writes that the index makes: what has to be written is.

use vstd::prelude::*;

use crate::code_index::changes::{ancestors, parent, ChangesView};
use crate::code_index::reply::{embedding_text, reply_headers, reply_summary, ChunkMeta};
use crate::code_index::writes::{
    all_delete_writes, all_move_writes, change_writes_of, delete_writes, embed_writes, finalize_writes, forget_writes,
    header_writes, hush_writes, move_writes, recategorized_writes_of, skip_writes, summary_writes, unparseable_writes,
    vendored_writes, WriteView,
};
use crate::order::{lemma_sorted_set, sorted_set};
use crate::text::listed;

verus! {

pub proof fn lemma_in_either(a: Seq<WriteView>, b: Seq<WriteView>, w: WriteView)
    ensures
        (a + b).contains(w) <==> a.contains(w) || b.contains(w),
{
    let all = a + b;
    if a.contains(w) {
        let i = choose|i: int| 0 <= i < a.len() && a[i] == w;
        assert(all[i] == w);
    }
    if b.contains(w) {
        let i = choose|i: int| 0 <= i < b.len() && b[i] == w;
        assert(all[a.len() + i] == w);
    }
    if all.contains(w) {
        let i = choose|i: int| 0 <= i < all.len() && all[i] == w;
        if i < a.len() {
            assert(a[i] == w);
        } else {
            assert(b[i - a.len()] == w);
        }
    }
}

// --- changes ---

proof fn lemma_delete_writes(paths: Seq<Seq<char>>, p: Seq<char>, w: WriteView)
    requires
        delete_writes(p).contains(w),
        listed(paths, p),
    ensures
        all_delete_writes(paths).contains(w),
    decreases paths.len(),
{
    let d = paths.drop_last();
    lemma_in_either(all_delete_writes(d), delete_writes(paths.last()), w);
    let i = choose|i: int| 0 <= i < paths.len() && #[trigger] paths[i] == p;
    if i < d.len() {
        assert(d[i] == p);
        lemma_delete_writes(d, p, w);
    }
}

proof fn lemma_move_writes(moved: Seq<(Seq<char>, Seq<char>)>, i: int, w: WriteView)
    requires
        0 <= i < moved.len(),
        move_writes(moved[i].0, moved[i].1).contains(w),
    ensures
        all_move_writes(moved).contains(w),
    decreases moved.len(),
{
    let d = moved.drop_last();
    lemma_in_either(all_move_writes(d), move_writes(moved.last().0, moved.last().1), w);
    if i < d.len() {
        assert(d[i] == moved[i]);
        lemma_move_writes(d, i, w);
    }
}

/// Every path that goes loses its row, its symbols and its summary, and the
/// summaries of its directories become stale.
pub proof fn law_every_deletion_is_written(c: ChangesView, p: Seq<char>)
    requires
        listed(c.delete, p),
    ensures
        change_writes_of(c).contains(WriteView::DeleteFile(p)),
        change_writes_of(c).contains(WriteView::DeleteSymbols(p)),
        change_writes_of(c).contains(WriteView::DeleteSummary(p)),
        change_writes_of(c).contains(WriteView::MarkStale(ancestors(p))),
{
    let a = all_delete_writes(c.delete);
    let b = all_move_writes(c.moved);
    let d = delete_writes(p);
    assert(d[0] == WriteView::DeleteFile(p));
    assert(d[1] == WriteView::DeleteSymbols(p));
    assert(d[2] == WriteView::DeleteSummary(p));
    assert(d[3] == WriteView::MarkStale(ancestors(p)));
    lemma_delete_writes(c.delete, p, d[0]);
    lemma_delete_writes(c.delete, p, d[1]);
    lemma_delete_writes(c.delete, p, d[2]);
    lemma_delete_writes(c.delete, p, d[3]);
    lemma_in_either(a, b, d[0]);
    lemma_in_either(a, b, d[1]);
    lemma_in_either(a, b, d[2]);
    lemma_in_either(a, b, d[3]);
}

/// Every row that moves takes its symbols along; where it changes its
/// directory, the summaries on both sides become stale.
pub proof fn law_every_move_is_written(c: ChangesView, i: int)
    requires
        0 <= i < c.moved.len(),
    ensures
        change_writes_of(c).contains(WriteView::MoveRows(c.moved[i].0, c.moved[i].1)),
        change_writes_of(c).contains(WriteView::MoveSymbols(c.moved[i].0, c.moved[i].1)),
        parent(c.moved[i].0) != parent(c.moved[i].1) ==> exists|s: Seq<Seq<char>>|
            #[trigger] change_writes_of(c).contains(WriteView::MarkStale(s)) && forall|d: Seq<char>| #[trigger]
                listed(s, d) <==> listed(ancestors(c.moved[i].0), d) || listed(ancestors(c.moved[i].1), d),
{
    let a = all_delete_writes(c.delete);
    let b = all_move_writes(c.moved);
    let (from, to) = c.moved[i];
    let m = move_writes(from, to);
    assert(m[0] == WriteView::MoveRows(from, to));
    assert(m[1] == WriteView::MoveSymbols(from, to));
    lemma_move_writes(c.moved, i, m[0]);
    lemma_move_writes(c.moved, i, m[1]);
    lemma_in_either(a, b, m[0]);
    lemma_in_either(a, b, m[1]);
    if parent(from) != parent(to) {
        let both = ancestors(from) + ancestors(to);
        let s = sorted_set(both);
        assert(m[2] == WriteView::MarkStale(s));
        lemma_move_writes(c.moved, i, m[2]);
        lemma_in_either(a, b, m[2]);
        lemma_sorted_set(both);
        assert forall|d: Seq<char>| #[trigger] listed(s, d) <==> listed(ancestors(from), d) || listed(ancestors(to), d) by {
            let x = ancestors(from);
            let y = ancestors(to);
            if listed(both, d) {
                let k = choose|k: int| 0 <= k < both.len() && #[trigger] both[k] == d;
                if k < x.len() {
                    assert(x[k] == d);
                } else {
                    assert(y[k - x.len()] == d);
                }
            }
            if listed(x, d) {
                let k = choose|k: int| 0 <= k < x.len() && #[trigger] x[k] == d;
                assert(both[k] == d);
            }
            if listed(y, d) {
                let k = choose|k: int| 0 <= k < y.len() && #[trigger] y[k] == d;
                assert(both[x.len() + k] == d);
            }
        }
        assert(change_writes_of(c).contains(WriteView::MarkStale(s)));
    }
}

proof fn lemma_only_deletes(paths: Seq<Seq<char>>, p: Seq<char>)
    ensures
        all_delete_writes(paths).contains(WriteView::DeleteFile(p)) ==> listed(paths, p),
    decreases paths.len(),
{
    if paths.len() > 0 {
        let d = paths.drop_last();
        let w = WriteView::DeleteFile(p);
        lemma_only_deletes(d, p);
        lemma_in_either(all_delete_writes(d), delete_writes(paths.last()), w);
        assert(paths[paths.len() - 1] == paths.last());
        if listed(d, p) {
            let i = choose|i: int| 0 <= i < d.len() && #[trigger] d[i] == p;
            assert(paths[i] == p);
        }
        if delete_writes(paths.last()).contains(w) {
            let i = choose|i: int| 0 <= i < delete_writes(paths.last()).len() && delete_writes(paths.last())[i] == w;
            assert(i == 0);
        }
    }
}

proof fn lemma_moves_delete_nothing(moved: Seq<(Seq<char>, Seq<char>)>, p: Seq<char>)
    ensures
        !all_move_writes(moved).contains(WriteView::DeleteFile(p)),
    decreases moved.len(),
{
    if moved.len() > 0 {
        let d = moved.drop_last();
        let w = WriteView::DeleteFile(p);
        lemma_moves_delete_nothing(d, p);
        lemma_in_either(all_move_writes(d), move_writes(moved.last().0, moved.last().1), w);
    }
}

/// No row is deleted that is not to go.
pub proof fn law_nothing_else_is_deleted(c: ChangesView, p: Seq<char>)
    ensures
        change_writes_of(c).contains(WriteView::DeleteFile(p)) ==> listed(c.delete, p),
{
    lemma_only_deletes(c.delete, p);
    lemma_moves_delete_nothing(c.moved, p);
    lemma_in_either(all_delete_writes(c.delete), all_move_writes(c.moved), WriteView::DeleteFile(p));
}

proof fn lemma_forget_writes(paths: Seq<Seq<char>>, i: int)
    requires
        0 <= i < paths.len(),
    ensures
        forget_writes(paths).contains(WriteView::DeleteFile(paths[i])),
        forget_writes(paths).contains(WriteView::DeleteSymbols(paths[i])),
        forget_writes(paths).contains(WriteView::DeleteSummary(paths[i])),
    decreases paths.len(),
{
    let d = paths.drop_last();
    let p = paths[i];
    let l = paths.last();
    let own = seq![WriteView::DeleteFile(l), WriteView::DeleteSymbols(l), WriteView::DeleteSummary(l)];
    assert(own[0] == WriteView::DeleteFile(l));
    assert(own[1] == WriteView::DeleteSymbols(l));
    assert(own[2] == WriteView::DeleteSummary(l));
    lemma_in_either(forget_writes(d), own, WriteView::DeleteFile(p));
    lemma_in_either(forget_writes(d), own, WriteView::DeleteSymbols(p));
    lemma_in_either(forget_writes(d), own, WriteView::DeleteSummary(p));
    if i < d.len() {
        assert(d[i] == p);
        lemma_forget_writes(d, i);
    }
}

proof fn lemma_vendored_writes(project: Seq<char>, dirs: Seq<Seq<char>>, i: int)
    requires
        0 <= i < dirs.len(),
    ensures
        vendored_writes(project, dirs).len() == dirs.len(),
        vendored_writes(project, dirs)[i] == WriteView::PutMemoryOnce(
            "code-index:"@ + project + ":vendored:"@ + dirs[i],
            project + " vendors "@ + "third-party code"@ + " under "@ + dirs[i],
        ),
    decreases dirs.len(),
{
    let d = dirs.drop_last();
    if d.len() > 0 {
        lemma_vendored_writes(project, d, if i < d.len() { i } else { 0 });
        if i < d.len() {
            assert(d[i] == dirs[i]);
        }
    } else {
        assert(vendored_writes(project, d).len() == 0);
    }
}

/// Of a file that is no longer in scope nothing stays; what its directories'
/// summaries said is stale; and a directory that is vendored from now on earns
/// its memory.
pub proof fn law_recategorized_files_are_forgotten(
    project: Seq<char>,
    removed: Seq<Seq<char>>,
    stale: Seq<Seq<char>>,
    vendored: Seq<Seq<char>>,
)
    ensures
        ({
            let ws = recategorized_writes_of(project, removed, stale, vendored);
            &&& forall|i: int|
                0 <= i < removed.len() ==> ws.contains(WriteView::DeleteFile(#[trigger] removed[i])) && ws.contains(
                    WriteView::DeleteSymbols(removed[i]),
                ) && ws.contains(WriteView::DeleteSummary(removed[i]))
            &&& stale.len() > 0 ==> ws.contains(WriteView::MarkStale(stale))
            &&& forall|i: int|
                0 <= i < vendored.len() ==> ws.contains(
                    WriteView::PutMemoryOnce(
                        "code-index:"@ + project + ":vendored:"@ + #[trigger] vendored[i],
                        project + " vendors "@ + "third-party code"@ + " under "@ + vendored[i],
                    ),
                )
        }),
{
    let ws = recategorized_writes_of(project, removed, stale, vendored);
    let a = forget_writes(removed);
    let b = if stale.len() > 0 {
        seq![WriteView::MarkStale(stale)]
    } else {
        Seq::empty()
    };
    let c = vendored_writes(project, vendored);
    assert forall|w: WriteView| #[trigger] ws.contains(w) <==> a.contains(w) || b.contains(w) || c.contains(w) by {
        lemma_in_either(a, b, w);
        lemma_in_either(a + b, c, w);
    }
    assert forall|i: int| 0 <= i < removed.len() implies ws.contains(WriteView::DeleteFile(#[trigger] removed[i]))
        && ws.contains(WriteView::DeleteSymbols(removed[i])) && ws.contains(WriteView::DeleteSummary(removed[i])) by {
        lemma_forget_writes(removed, i);
    }
    if stale.len() > 0 {
        assert(b[0] == WriteView::MarkStale(stale));
        assert(b.contains(WriteView::MarkStale(stale)));
    }
    assert forall|i: int| 0 <= i < vendored.len() implies ws.contains(
        WriteView::PutMemoryOnce(
            "code-index:"@ + project + ":vendored:"@ + #[trigger] vendored[i],
            project + " vendors "@ + "third-party code"@ + " under "@ + vendored[i],
        ),
    ) by {
        lemma_vendored_writes(project, vendored, i);
        assert(c.contains(c[i]));
    }
}

// --- files that are skipped ---

proof fn lemma_hush_writes(project: Seq<char>, dirs: Seq<Seq<char>>, i: int)
    requires
        0 <= i < dirs.len(),
    ensures
        hush_writes(project, dirs).contains(WriteView::EmptySummary(dirs[i])),
        hush_writes(project, dirs).contains(WriteView::InvalidateSource("code-index:"@ + project + ":"@ + dirs[i])),
    decreases dirs.len(),
{
    let d = dirs.drop_last();
    let l = dirs.last();
    let own = seq![
        WriteView::EmptySummary(l),
        WriteView::InvalidateSource(crate::code_index::writes::mirror_source(project, l)),
    ];
    assert(own[0] == WriteView::EmptySummary(l));
    assert(own[1] == WriteView::InvalidateSource("code-index:"@ + project + ":"@ + l));
    lemma_in_either(hush_writes(project, d), own, WriteView::EmptySummary(dirs[i]));
    lemma_in_either(
        hush_writes(project, d),
        own,
        WriteView::InvalidateSource("code-index:"@ + project + ":"@ + dirs[i]),
    );
    if i < d.len() {
        assert(d[i] == dirs[i]);
        lemma_hush_writes(project, d, i);
    }
}

/// A file that is skipped keeps its reason and nothing derived of it; where it
/// had a summary, what was said of its directories goes too, in the summaries
/// and in the memories that mirror them.
pub proof fn law_skipping_silences_what_was_said(
    project: Seq<char>,
    path: Seq<char>,
    blob: Seq<char>,
    reason: Seq<char>,
    had_summary: bool,
)
    ensures
        ({
            let ws = skip_writes(project, path, blob, reason, had_summary);
            &&& ws.contains(WriteView::ClearChunks(path))
            &&& ws.contains(WriteView::DeleteSymbols(path))
            &&& ws.contains(WriteView::DeleteSummary(path))
            &&& ws.contains(WriteView::PutSkipped(path, blob, reason))
            &&& ws.contains(WriteView::MarkStale(ancestors(path)))
            &&& had_summary ==> forall|i: int|
                0 <= i < ancestors(path).len() ==> ws.contains(WriteView::EmptySummary(#[trigger] ancestors(path)[i]))
                    && ws.contains(WriteView::InvalidateSource("code-index:"@ + project + ":"@ + ancestors(path)[i]))
        }),
{
    let ws = skip_writes(project, path, blob, reason, had_summary);
    let a = seq![
        WriteView::ClearChunks(path),
        WriteView::DeleteSymbols(path),
        WriteView::PutSkipped(path, blob, reason),
        WriteView::DeleteSummary(path),
    ];
    let h = hush_writes(project, ancestors(path));
    let b = if had_summary {
        h
    } else {
        Seq::empty()
    };
    let c = seq![WriteView::MarkStale(ancestors(path))];
    assert(ws == a + b + c);
    assert forall|w: WriteView| #[trigger] ws.contains(w) <==> a.contains(w) || b.contains(w) || c.contains(w) by {
        lemma_in_either(a, b, w);
        lemma_in_either(a + b, c, w);
    }
    assert(a.contains(a[0]) && a.contains(a[1]) && a.contains(a[2]) && a.contains(a[3]));
    assert(c.contains(c[0]));
    if had_summary {
        assert forall|i: int| 0 <= i < ancestors(path).len() implies ws.contains(
            WriteView::EmptySummary(#[trigger] ancestors(path)[i]),
        ) && ws.contains(WriteView::InvalidateSource("code-index:"@ + project + ":"@ + ancestors(path)[i])) by {
            lemma_hush_writes(project, ancestors(path), i);
        }
    }
}

// --- replies ---

/// A file whose summary could not be read is left alone the first time; from
/// the second on it loses the summary that it has, and its directories'
/// summaries become stale.
pub proof fn law_second_unreadable_summary_gives_up(path: Seq<char>, attempts: int, has_summary: bool)
    ensures
        attempts < 2 ==> unparseable_writes(path, attempts, has_summary).len() == 0,
        attempts >= 2 ==> unparseable_writes(path, attempts, has_summary).contains(WriteView::MarkStale(ancestors(path))),
        attempts >= 2 ==> (unparseable_writes(path, attempts, has_summary).contains(WriteView::DeleteSummary(path))
            <==> has_summary),
{
    let ws = unparseable_writes(path, attempts, has_summary);
    if attempts >= 2 {
        assert(ws.contains(ws.last()));
        assert(ws.last() == WriteView::MarkStale(ancestors(path)));
        if has_summary {
            assert(ws[0] == WriteView::DeleteSummary(path));
        } else {
            assert(ws.len() == 1);
        }
    }
}

proof fn lemma_header_writes(chunks: Seq<ChunkMeta>, headers: Map<usize, Seq<char>>, i: int)
    requires
        0 <= i < chunks.len() <= usize::MAX,
        headers.contains_key((i + 1) as usize),
    ensures
        header_writes(chunks, headers).contains(WriteView::SetHeader(chunks[i].id, headers[(i + 1) as usize])),
    decreases chunks.len(),
{
    let d = chunks.drop_last();
    let rest = header_writes(d, headers);
    let all = header_writes(chunks, headers);
    if i == chunks.len() - 1 {
        assert(all.last() == WriteView::SetHeader(chunks[i].id, headers[(i + 1) as usize]));
        assert(all.contains(all.last()));
    } else {
        assert(d[i] == chunks[i]);
        lemma_header_writes(d, headers, i);
        let w = WriteView::SetHeader(chunks[i].id, headers[(i + 1) as usize]);
        let k = choose|k: int| 0 <= k < rest.len() && rest[k] == w;
        assert(all[k] == w);
    }
}

proof fn lemma_embed_writes(chunks: Seq<ChunkMeta>, headers: Map<usize, Seq<char>>, cap: int, i: int)
    requires
        0 <= i < chunks.len() <= usize::MAX,
    ensures
        embed_writes(chunks, headers, cap).len() == chunks.len(),
        embed_writes(chunks, headers, cap)[i] == WriteView::EmbedChunk(
            chunks[i].id,
            embedding_text(
                if headers.contains_key((i + 1) as usize) {
                    Some(headers[(i + 1) as usize])
                } else {
                    None
                },
                chunks[i].text@,
                cap,
            ),
        ),
    decreases chunks.len(),
{
    let d = chunks.drop_last();
    if d.len() > 0 {
        lemma_embed_writes(d, headers, cap, if i < d.len() { i } else { 0 });
        if i < d.len() {
            assert(d[i] == chunks[i]);
        }
    } else {
        assert(embed_writes(d, headers, cap).len() == 0);
    }
}

/// A header reply is written whole: the header of every chunk that it gives
/// one for, an embedding of every chunk with its header and its text, the
/// summary or one more attempt, and the file's status.
pub proof fn law_header_reply_is_written_whole(
    path: Seq<char>,
    blob: Seq<char>,
    chunks: Seq<ChunkMeta>,
    reply: Seq<char>,
    cap: int,
)
    requires
        chunks.len() <= usize::MAX,
    ensures
        ({
            let ws = finalize_writes(path, blob, chunks, reply, cap);
            let hs = reply_headers(reply);
            &&& forall|i: int|
                0 <= i < chunks.len() && hs.contains_key((i + 1) as usize) ==> ws.contains(
                    WriteView::SetHeader((#[trigger] chunks[i]).id, hs[(i + 1) as usize]),
                )
            &&& forall|i: int|
                0 <= i < chunks.len() ==> ws.contains(
                    WriteView::EmbedChunk(
                        (#[trigger] chunks[i]).id,
                        embedding_text(
                            if hs.contains_key((i + 1) as usize) {
                                Some(hs[(i + 1) as usize])
                            } else {
                                None
                            },
                            chunks[i].text@,
                            cap,
                        ),
                    ),
                )
            &&& reply_summary(reply) is Some ==> ws.contains(WriteView::PutSummary(path, reply_summary(reply)->0, blob))
                && ws.contains(WriteView::EmbedSummary(path, reply_summary(reply)->0)) && ws.contains(
                WriteView::MarkStale(ancestors(path)),
            )
            &&& reply_summary(reply) is None ==> ws.contains(WriteView::CountAttempt(path))
            &&& (exists|i: int| 0 <= i < chunks.len() && (#[trigger] chunks[i]).kind@ != "window"@) ==> ws.last()
                == WriteView::SetStatus(path, "indexed"@)
            &&& (forall|i: int| 0 <= i < chunks.len() ==> (#[trigger] chunks[i]).kind@ == "window"@) ==> ws.last()
                == WriteView::SetStatus(path, "fallback"@)
        }),
{
    let ws = finalize_writes(path, blob, chunks, reply, cap);
    let hs = reply_headers(reply);
    let a = header_writes(chunks, hs);
    let b = embed_writes(chunks, hs, cap);
    let c = summary_writes(path, blob, reply_summary(reply));
    let d = seq![ws.last()];
    assert(ws =~= a + b + c + d);
    assert forall|w: WriteView| #[trigger] ws.contains(w) <==> a.contains(w) || b.contains(w) || c.contains(w) || d.contains(w) by {
        lemma_in_either(a, b, w);
        lemma_in_either(a + b, c, w);
        lemma_in_either(a + b + c, d, w);
    }
    assert forall|i: int| 0 <= i < chunks.len() && hs.contains_key((i + 1) as usize) implies ws.contains(
        WriteView::SetHeader((#[trigger] chunks[i]).id, hs[(i + 1) as usize]),
    ) by {
        lemma_header_writes(chunks, hs, i);
    }
    assert forall|i: int| 0 <= i < chunks.len() implies ws.contains(
        WriteView::EmbedChunk(
            (#[trigger] chunks[i]).id,
            embedding_text(
                if hs.contains_key((i + 1) as usize) {
                    Some(hs[(i + 1) as usize])
                } else {
                    None
                },
                chunks[i].text@,
                cap,
            ),
        ),
    ) by {
        lemma_embed_writes(chunks, hs, cap, i);
        assert(b.contains(b[i]));
    }
    assert(c.contains(c[0]));
    if reply_summary(reply) is Some {
        assert(c.contains(c[1]) && c.contains(c[2]));
    }
}

/// A summary reply writes the summary that it gives, or counts one more
/// attempt.
pub proof fn law_summary_reply_is_written(path: Seq<char>, blob: Seq<char>, s: Option<Seq<char>>)
    ensures
        s is Some ==> summary_writes(path, blob, s).contains(WriteView::PutSummary(path, s->0, blob)) && summary_writes(
            path,
            blob,
            s,
        ).contains(WriteView::EmbedSummary(path, s->0)) && summary_writes(path, blob, s).contains(
            WriteView::MarkStale(ancestors(path)),
        ) && !summary_writes(path, blob, s).contains(WriteView::CountAttempt(path)),
        s is None ==> summary_writes(path, blob, s) == seq![WriteView::CountAttempt(path)],
{
    let ws = summary_writes(path, blob, s);
    if s is Some {
        assert(ws.contains(ws[0]) && ws.contains(ws[1]) && ws.contains(ws[2]));
        assert(!ws.contains(WriteView::CountAttempt(path)));
    }
}

} // verus!
