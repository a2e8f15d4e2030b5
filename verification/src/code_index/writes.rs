//! What a run writes to the index: the writes as plain values, and the lists
//! of them that each decision comes to. Performing them is the caller's part.

use vstd::prelude::*;

use crate::code_index::changes::{
    add_texts, ancestor_summary_paths, ancestors, parent, parent_dir, Changes, ChangesView, Recategorized,
};
use crate::code_index::reply::{
    embedding_input, embedding_text, headers_view, parse_header_reply, parse_summary_reply, reply_headers, reply_summary,
    ChunkMeta,
};
use crate::code_index::rows::{opt_str_view, opt_view};
use crate::code_index::scope::{
    pairs_view, vendored_content, vendored_source, write_vendored_memory, INDEX_OWNED_SOURCE_PREFIX,
};
use crate::order::sorted_set;
use crate::text::{chars_of, owned, push_text, same_text, string_of, texts};

verus! {

/// One write to the index.
#[derive(Debug, Clone)]
pub enum Write {
    /// Deletes a file's row and its chunks.
    DeleteFile(String),
    /// Deletes a file's symbols and the edges that start at them.
    DeleteSymbols(String),
    /// Deletes the summary of a path.
    DeleteSummary(String),
    /// Marks the summaries of the paths as stale.
    MarkStale(Vec<String>),
    /// Moves a file's row, chunks and summary to another path.
    MoveRows(String, String),
    /// Moves a file's symbols to another path.
    MoveSymbols(String, String),
    /// Deletes a file's chunks.
    ClearChunks(String),
    /// Records a file as skipped, with its blob and the reason.
    PutSkipped(String, String, String),
    /// Empties the summary of a directory and invalidates its memory.
    EmptySummary(String),
    /// Invalidates every memory of a source.
    InvalidateSource(String),
    /// Writes a memory (source and content) unless its source has one.
    PutMemoryOnce(String, String),
    /// Sets a file's status.
    SetStatus(String, String),
    /// Sets a chunk's header.
    SetHeader(i64, String),
    /// Embeds a text for a chunk; a failure leaves the chunk unembedded.
    EmbedChunk(i64, String),
    /// Writes a file's summary (path, text and the blob that it is of).
    PutSummary(String, String, String),
    /// Embeds a text for a summary; a failure leaves it unembedded.
    EmbedSummary(String, String),
    /// Counts one more call that gave no summary of a file.
    CountAttempt(String),
    /// Invalidates a memory.
    InvalidateMemory(i64),
    /// Writes an empty, stale summary of a directory (path and level) that has
    /// none yet.
    SeedPlaceholder(String, String),
    /// Records a directory's summary as current, with the digest of what it is
    /// made of.
    ClearStale(String, String),
    /// Writes a directory's summary (path, level, text and digest).
    PutModuleSummary(String, String, String, String),
    /// Writes the memory that mirrors a directory's summary (path, source and
    /// content), in place of the one before it.
    PutMirror(String, String, String),
}

/// What a write says.
pub ghost enum WriteView {
    DeleteFile(Seq<char>),
    DeleteSymbols(Seq<char>),
    DeleteSummary(Seq<char>),
    MarkStale(Seq<Seq<char>>),
    MoveRows(Seq<char>, Seq<char>),
    MoveSymbols(Seq<char>, Seq<char>),
    ClearChunks(Seq<char>),
    PutSkipped(Seq<char>, Seq<char>, Seq<char>),
    EmptySummary(Seq<char>),
    InvalidateSource(Seq<char>),
    PutMemoryOnce(Seq<char>, Seq<char>),
    SetStatus(Seq<char>, Seq<char>),
    SetHeader(i64, Seq<char>),
    EmbedChunk(i64, Seq<char>),
    PutSummary(Seq<char>, Seq<char>, Seq<char>),
    EmbedSummary(Seq<char>, Seq<char>),
    CountAttempt(Seq<char>),
    InvalidateMemory(i64),
    SeedPlaceholder(Seq<char>, Seq<char>),
    ClearStale(Seq<char>, Seq<char>),
    PutModuleSummary(Seq<char>, Seq<char>, Seq<char>, Seq<char>),
    PutMirror(Seq<char>, Seq<char>, Seq<char>),
}

impl View for Write {
    type V = WriteView;

    open spec fn view(&self) -> WriteView {
        match *self {
            Write::DeleteFile(p) => WriteView::DeleteFile(p@),
            Write::DeleteSymbols(p) => WriteView::DeleteSymbols(p@),
            Write::DeleteSummary(p) => WriteView::DeleteSummary(p@),
            Write::MarkStale(v) => WriteView::MarkStale(texts(v@)),
            Write::MoveRows(a, b) => WriteView::MoveRows(a@, b@),
            Write::MoveSymbols(a, b) => WriteView::MoveSymbols(a@, b@),
            Write::ClearChunks(p) => WriteView::ClearChunks(p@),
            Write::PutSkipped(p, b, r) => WriteView::PutSkipped(p@, b@, r@),
            Write::EmptySummary(p) => WriteView::EmptySummary(p@),
            Write::InvalidateSource(s) => WriteView::InvalidateSource(s@),
            Write::PutMemoryOnce(s, c) => WriteView::PutMemoryOnce(s@, c@),
            Write::SetStatus(p, s) => WriteView::SetStatus(p@, s@),
            Write::SetHeader(n, t) => WriteView::SetHeader(n, t@),
            Write::EmbedChunk(n, t) => WriteView::EmbedChunk(n, t@),
            Write::PutSummary(p, t, d) => WriteView::PutSummary(p@, t@, d@),
            Write::EmbedSummary(p, t) => WriteView::EmbedSummary(p@, t@),
            Write::CountAttempt(p) => WriteView::CountAttempt(p@),
            Write::InvalidateMemory(n) => WriteView::InvalidateMemory(n),
            Write::SeedPlaceholder(p, l) => WriteView::SeedPlaceholder(p@, l@),
            Write::ClearStale(p, d) => WriteView::ClearStale(p@, d@),
            Write::PutModuleSummary(p, l, t, d) => WriteView::PutModuleSummary(p@, l@, t@, d@),
            Write::PutMirror(p, s, c) => WriteView::PutMirror(p@, s@, c@),
        }
    }
}

/// What the writes of a list say.
pub open spec fn writes_view(v: Seq<Write>) -> Seq<WriteView> {
    Seq::new(v.len(), |i: int| v[i]@)
}

pub(crate) fn note(out: &mut Vec<Write>, w: Write)
    ensures
        writes_view(final(out)@) == writes_view(old(out)@).push(w@),
{
    let ghost before = out@;
    out.push(w);
    assert(writes_view(out@) =~= writes_view(before).push(w@));
}

// --- deletions and moves ---

/// What deleting a file comes to: its row, its symbols and its summary go, and
/// the summaries above it are stale.
pub open spec fn delete_writes(path: Seq<char>) -> Seq<WriteView> {
    seq![
        WriteView::DeleteFile(path),
        WriteView::DeleteSymbols(path),
        WriteView::DeleteSummary(path),
        WriteView::MarkStale(ancestors(path)),
    ]
}

/// What moving a file comes to: its rows and symbols move, and where the move
/// leaves the directory the summaries above both paths are stale.
pub open spec fn move_writes(from: Seq<char>, to: Seq<char>) -> Seq<WriteView> {
    let moved = seq![WriteView::MoveRows(from, to), WriteView::MoveSymbols(from, to)];
    if parent(from) != parent(to) {
        moved.push(WriteView::MarkStale(sorted_set(ancestors(from) + ancestors(to))))
    } else {
        moved
    }
}

pub open spec fn all_delete_writes(paths: Seq<Seq<char>>) -> Seq<WriteView>
    decreases paths.len(),
{
    if paths.len() == 0 {
        Seq::empty()
    } else {
        all_delete_writes(paths.drop_last()) + delete_writes(paths.last())
    }
}

pub open spec fn all_move_writes(moved: Seq<(Seq<char>, Seq<char>)>) -> Seq<WriteView>
    decreases moved.len(),
{
    if moved.len() == 0 {
        Seq::empty()
    } else {
        all_move_writes(moved.drop_last()) + move_writes(moved.last().0, moved.last().1)
    }
}

/// What the deletions and the moves of a run come to.
pub open spec fn change_writes_of(c: ChangesView) -> Seq<WriteView> {
    all_delete_writes(c.delete) + all_move_writes(c.moved)
}

/// What the deletions and the moves of a run come to.
pub fn change_writes(changes: &Changes) -> (r: Vec<Write>)
    ensures
        writes_view(r@) == change_writes_of(changes@),
{
    let mut out: Vec<Write> = Vec::new();
    let ghost dv = texts(changes.delete@);
    let ghost mv = pairs_view(changes.moved@);
    let mut i: usize = 0;
    assert(writes_view(out@) =~= all_delete_writes(dv.take(0)));
    while i < changes.delete.len()
        invariant
            i <= changes.delete@.len(),
            dv == texts(changes.delete@),
            writes_view(out@) == all_delete_writes(dv.take(i as int)),
        decreases changes.delete@.len() - i,
    {
        assert(dv.take(i + 1).drop_last() =~= dv.take(i as int));
        let ghost before = writes_view(out@);
        let p: &str = changes.delete[i].as_str();
        note(&mut out, Write::DeleteFile(owned(p)));
        note(&mut out, Write::DeleteSymbols(owned(p)));
        note(&mut out, Write::DeleteSummary(owned(p)));
        note(&mut out, Write::MarkStale(ancestor_summary_paths(p)));
        assert(writes_view(out@) =~= before + delete_writes(p@));
        i = i + 1;
    }
    assert(dv.take(i as int) =~= dv);
    let ghost base = writes_view(out@);
    let mut j: usize = 0;
    assert(writes_view(out@) =~= base + all_move_writes(mv.take(0)));
    while j < changes.moved.len()
        invariant
            j <= changes.moved@.len(),
            mv == pairs_view(changes.moved@),
            writes_view(out@) == base + all_move_writes(mv.take(j as int)),
        decreases changes.moved@.len() - j,
    {
        assert(mv.take(j + 1).drop_last() =~= mv.take(j as int));
        let ghost before = writes_view(out@);
        let from: &str = changes.moved[j].0.as_str();
        let to: &str = changes.moved[j].1.as_str();
        note(&mut out, Write::MoveRows(owned(from), owned(to)));
        note(&mut out, Write::MoveSymbols(owned(from), owned(to)));
        let from_dir = parent_dir(from);
        let to_dir = parent_dir(to);
        if !same_text(from_dir.as_str(), to_dir.as_str()) {
            let mut stale: Vec<String> = Vec::new();
            assert(texts(stale@) =~= sorted_set(Seq::empty()));
            let above_from = ancestor_summary_paths(from);
            add_texts(&mut stale, &above_from, Ghost(Seq::empty()));
            assert(Seq::<Seq<char>>::empty() + ancestors(from@) =~= ancestors(from@));
            let above_to = ancestor_summary_paths(to);
            add_texts(&mut stale, &above_to, Ghost(ancestors(from@)));
            note(&mut out, Write::MarkStale(stale));
        }
        assert(writes_view(out@) =~= before + move_writes(from@, to@));
        j = j + 1;
        assert(writes_view(out@) =~= base + all_move_writes(mv.take(j as int)));
    }
    assert(mv.take(j as int) =~= mv);
    out
}

// --- recategorisation ---

/// What leaves the index with a file that is scoped out.
pub open spec fn forget_writes(paths: Seq<Seq<char>>) -> Seq<WriteView>
    decreases paths.len(),
{
    if paths.len() == 0 {
        Seq::empty()
    } else {
        forget_writes(paths.drop_last()) + seq![
            WriteView::DeleteFile(paths.last()),
            WriteView::DeleteSymbols(paths.last()),
            WriteView::DeleteSummary(paths.last()),
        ]
    }
}

/// The memories of vendored directories of which nothing more is known.
pub open spec fn vendored_writes(project: Seq<char>, dirs: Seq<Seq<char>>) -> Seq<WriteView>
    decreases dirs.len(),
{
    if dirs.len() == 0 {
        Seq::empty()
    } else {
        vendored_writes(project, dirs.drop_last()).push(
            WriteView::PutMemoryOnce(
                vendored_source(project, dirs.last()),
                vendored_content(project, dirs.last(), None),
            ),
        )
    }
}

/// What a recategorisation comes to.
pub open spec fn recategorized_writes_of(
    project: Seq<char>,
    removed: Seq<Seq<char>>,
    stale: Seq<Seq<char>>,
    vendored: Seq<Seq<char>>,
) -> Seq<WriteView> {
    forget_writes(removed) + (if stale.len() > 0 {
        seq![WriteView::MarkStale(stale)]
    } else {
        Seq::empty()
    }) + vendored_writes(project, vendored)
}

/// What a recategorisation comes to.
pub fn recategorized_writes(project: &str, r: Recategorized) -> (out: Vec<Write>)
    ensures
        writes_view(out@) == recategorized_writes_of(
            project@,
            texts(r.removed@),
            texts(r.stale@),
            texts(r.vendored_dirs@),
        ),
{
    let mut out: Vec<Write> = Vec::new();
    let ghost rv = texts(r.removed@);
    let ghost vv = texts(r.vendored_dirs@);
    let mut i: usize = 0;
    assert(writes_view(out@) =~= forget_writes(rv.take(0)));
    while i < r.removed.len()
        invariant
            i <= r.removed@.len(),
            rv == texts(r.removed@),
            writes_view(out@) == forget_writes(rv.take(i as int)),
        decreases r.removed@.len() - i,
    {
        assert(rv.take(i + 1).drop_last() =~= rv.take(i as int));
        let ghost before = writes_view(out@);
        let p: &str = r.removed[i].as_str();
        note(&mut out, Write::DeleteFile(owned(p)));
        note(&mut out, Write::DeleteSymbols(owned(p)));
        note(&mut out, Write::DeleteSummary(owned(p)));
        assert(writes_view(out@) =~= before + seq![
            WriteView::DeleteFile(p@),
            WriteView::DeleteSymbols(p@),
            WriteView::DeleteSummary(p@),
        ]);
        i = i + 1;
    }
    assert(rv.take(i as int) =~= rv);
    let ghost upto = writes_view(out@);
    let ghost sv = texts(r.stale@);
    let Recategorized { removed: _, stale, vendored_dirs } = r;
    if stale.len() > 0 {
        note(&mut out, Write::MarkStale(stale));
        assert(writes_view(out@) =~= upto + seq![WriteView::MarkStale(sv)]);
    } else {
        assert(writes_view(out@) =~= upto + Seq::<WriteView>::empty());
    }
    let ghost base = writes_view(out@);
    let mut j: usize = 0;
    assert(writes_view(out@) =~= base + vendored_writes(project@, vv.take(0)));
    while j < vendored_dirs.len()
        invariant
            j <= vendored_dirs@.len(),
            vv == texts(vendored_dirs@),
            writes_view(out@) == base + vendored_writes(project@, vv.take(j as int)),
        decreases vendored_dirs@.len() - j,
    {
        assert(vv.take(j + 1).drop_last() =~= vv.take(j as int));
        let m = write_vendored_memory(project, vendored_dirs[j].as_str(), None);
        note(&mut out, Write::PutMemoryOnce(m.source, m.content));
        j = j + 1;
        assert(writes_view(out@) =~= base + vendored_writes(project@, vv.take(j as int)));
    }
    assert(vv.take(j as int) =~= vv);
    out
}

// --- a file that holds a secret ---

/// The source of the memory that mirrors the summary of a path.
pub open spec fn mirror_source(project: Seq<char>, path: Seq<char>) -> Seq<char> {
    INDEX_OWNED_SOURCE_PREFIX@ + project + ":"@ + path
}

/// The source of the memory that mirrors the summary of a path.
pub fn index_source(project: &str, path: &str) -> (r: String)
    ensures
        r@ == mirror_source(project@, path@),
{
    let mut s = chars_of(INDEX_OWNED_SOURCE_PREFIX);
    push_text(&mut s, project);
    push_text(&mut s, ":");
    push_text(&mut s, path);
    string_of(s.as_slice())
}

/// What keeps a summary that was made with the file from being read: it is
/// emptied, and its mirrors are invalidated.
pub open spec fn hush_writes(project: Seq<char>, dirs: Seq<Seq<char>>) -> Seq<WriteView>
    decreases dirs.len(),
{
    if dirs.len() == 0 {
        Seq::empty()
    } else {
        hush_writes(project, dirs.drop_last()) + seq![
            WriteView::EmptySummary(dirs.last()),
            WriteView::InvalidateSource(mirror_source(project, dirs.last())),
        ]
    }
}

/// What marking a file as skipped comes to: nothing derived from its content
/// stays, and where it had a summary the summaries above it are emptied.
pub open spec fn skip_writes(
    project: Seq<char>,
    path: Seq<char>,
    blob: Seq<char>,
    reason: Seq<char>,
    had_summary: bool,
) -> Seq<WriteView> {
    seq![
        WriteView::ClearChunks(path),
        WriteView::DeleteSymbols(path),
        WriteView::PutSkipped(path, blob, reason),
        WriteView::DeleteSummary(path),
    ] + (if had_summary {
        hush_writes(project, ancestors(path))
    } else {
        Seq::empty()
    }) + seq![WriteView::MarkStale(ancestors(path))]
}

/// What marking a file as skipped comes to.
pub fn mark_skipped(project: &str, path: &str, blob: &str, reason: &str, had_summary: bool) -> (r: Vec<Write>)
    ensures
        writes_view(r@) == skip_writes(project@, path@, blob@, reason@, had_summary),
{
    let mut out: Vec<Write> = Vec::new();
    note(&mut out, Write::ClearChunks(owned(path)));
    note(&mut out, Write::DeleteSymbols(owned(path)));
    note(&mut out, Write::PutSkipped(owned(path), owned(blob), owned(reason)));
    note(&mut out, Write::DeleteSummary(owned(path)));
    let ghost base = writes_view(out@);
    assert(base =~= seq![
        WriteView::ClearChunks(path@),
        WriteView::DeleteSymbols(path@),
        WriteView::PutSkipped(path@, blob@, reason@),
        WriteView::DeleteSummary(path@),
    ]);
    let above = ancestor_summary_paths(path);
    let ghost av = texts(above@);
    if had_summary {
        let mut i: usize = 0;
        assert(writes_view(out@) =~= base + hush_writes(project@, av.take(0)));
        while i < above.len()
            invariant
                i <= above@.len(),
                av == texts(above@),
                writes_view(out@) == base + hush_writes(project@, av.take(i as int)),
            decreases above@.len() - i,
        {
            assert(av.take(i + 1).drop_last() =~= av.take(i as int));
            let dir: &str = above[i].as_str();
            note(&mut out, Write::EmptySummary(owned(dir)));
            note(&mut out, Write::InvalidateSource(index_source(project, dir)));
            i = i + 1;
            assert(writes_view(out@) =~= base + hush_writes(project@, av.take(i as int)));
        }
        assert(av.take(i as int) =~= av);
    } else {
        assert(writes_view(out@) =~= base + Seq::<WriteView>::empty());
    }
    note(&mut out, Write::MarkStale(above));
    assert(writes_view(out@) =~= skip_writes(project@, path@, blob@, reason@, had_summary));
    out
}

// --- what a reply comes to ---

/// How many calls without a summary a file's blob gets.
pub const SUMMARY_GIVE_UP_ATTEMPTS: i64 = 2;

/// What one more call without a summary comes to: from the second on, the
/// summary of an earlier blob goes and the summaries above are stale.
pub open spec fn unparseable_writes(path: Seq<char>, attempts: int, has_summary: bool) -> Seq<WriteView> {
    if attempts < SUMMARY_GIVE_UP_ATTEMPTS {
        Seq::empty()
    } else if has_summary {
        seq![WriteView::DeleteSummary(path), WriteView::MarkStale(ancestors(path))]
    } else {
        seq![WriteView::MarkStale(ancestors(path))]
    }
}

/// What a call that gave no summary comes to, once it is counted: `attempts`
/// such calls were made for the file's blob.
pub fn record_unparseable_summary(path: &str, attempts: i64, has_summary: bool) -> (r: Vec<Write>)
    ensures
        writes_view(r@) == unparseable_writes(path@, attempts as int, has_summary),
{
    let mut out: Vec<Write> = Vec::new();
    if attempts >= SUMMARY_GIVE_UP_ATTEMPTS {
        if has_summary {
            note(&mut out, Write::DeleteSummary(owned(path)));
        }
        note(&mut out, Write::MarkStale(ancestor_summary_paths(path)));
    }
    assert(writes_view(out@) =~= unparseable_writes(path@, attempts as int, has_summary));
    out
}

/// What a summary, or its absence, comes to.
pub open spec fn summary_writes(path: Seq<char>, blob: Seq<char>, summary: Option<Seq<char>>) -> Seq<WriteView> {
    match summary {
        Some(s) => seq![
            WriteView::PutSummary(path, s, blob),
            WriteView::EmbedSummary(path, s),
            WriteView::MarkStale(ancestors(path)),
        ],
        None => seq![WriteView::CountAttempt(path)],
    }
}

fn add_summary(out: &mut Vec<Write>, path: &str, blob: &str, summary: Option<String>)
    ensures
        writes_view(final(out)@) == writes_view(old(out)@) + summary_writes(path@, blob@, opt_view(summary)),
{
    let ghost before = writes_view(out@);
    match summary {
        Some(s) => {
            note(out, Write::PutSummary(owned(path), s.clone(), owned(blob)));
            note(out, Write::EmbedSummary(owned(path), s));
            note(out, Write::MarkStale(ancestor_summary_paths(path)));
        },
        None => {
            note(out, Write::CountAttempt(owned(path)));
        },
    }
    assert(writes_view(out@) =~= before + summary_writes(path@, blob@, opt_view(summary)));
}

/// What a reply to the summary call comes to.
pub fn summary_reply_writes(path: &str, blob: &str, reply: &str) -> (r: Vec<Write>)
    ensures
        writes_view(r@) == summary_writes(path@, blob@, reply_summary(reply@)),
{
    let mut out: Vec<Write> = Vec::new();
    add_summary(&mut out, path, blob, parse_summary_reply(reply));
    assert(writes_view(out@) =~= summary_writes(path@, blob@, reply_summary(reply@)));
    out
}

/// The headers that a reply gives to the chunks, which are numbered from one.
pub open spec fn header_writes(chunks: Seq<ChunkMeta>, headers: Map<usize, Seq<char>>) -> Seq<WriteView>
    decreases chunks.len(),
{
    if chunks.len() == 0 {
        Seq::empty()
    } else {
        let rest = header_writes(chunks.drop_last(), headers);
        let n = chunks.len() as usize;
        if headers.contains_key(n) {
            rest.push(WriteView::SetHeader(chunks.last().id, headers[n]))
        } else {
            rest
        }
    }
}

/// The header that a reply gives to the chunk with number `n`.
pub open spec fn header_of(headers: Map<usize, Seq<char>>, n: int) -> Option<Seq<char>> {
    if headers.contains_key(n as usize) {
        Some(headers[n as usize])
    } else {
        None
    }
}

/// The embeddings of the chunks, each by its header and its text.
pub open spec fn embed_writes(chunks: Seq<ChunkMeta>, headers: Map<usize, Seq<char>>, cap: int) -> Seq<WriteView>
    decreases chunks.len(),
{
    if chunks.len() == 0 {
        Seq::empty()
    } else {
        embed_writes(chunks.drop_last(), headers, cap).push(
            WriteView::EmbedChunk(
                chunks.last().id,
                embedding_text(header_of(headers, chunks.len() as int), chunks.last().text@, cap),
            ),
        )
    }
}

/// Whether a file was only cut into windows.
pub open spec fn only_windows(chunks: Seq<ChunkMeta>) -> bool {
    forall|i: int| 0 <= i < chunks.len() ==> (#[trigger] chunks[i]).kind@ == "window"@
}

/// What a reply to the header call comes to: headers, embeddings, the summary
/// or its absence, and the file is done whatever the reply held.
pub open spec fn finalize_writes(
    path: Seq<char>,
    blob: Seq<char>,
    chunks: Seq<ChunkMeta>,
    reply: Seq<char>,
    cap: int,
) -> Seq<WriteView> {
    let headers = reply_headers(reply);
    header_writes(chunks, headers) + embed_writes(chunks, headers, cap) + summary_writes(
        path,
        blob,
        reply_summary(reply),
    ) + seq![
        WriteView::SetStatus(
            path,
            if only_windows(chunks) {
                "fallback"@
            } else {
                "indexed"@
            },
        ),
    ]
}

/// What a reply to the header call comes to.
pub fn header_reply_writes(path: &str, blob: &str, chunks: &Vec<ChunkMeta>, reply: &str, cap: usize) -> (r: Vec<Write>)
    ensures
        writes_view(r@) == finalize_writes(path@, blob@, chunks@, reply@, cap as int),
{
    broadcast use vstd::std_specs::hash::group_hash_axioms;

    let (headers, summary) = parse_header_reply(reply);
    let ghost hv = headers_view(headers@);
    let mut out: Vec<Write> = Vec::new();
    let mut i: usize = 0;
    assert(writes_view(out@) =~= header_writes(chunks@.take(0), hv));
    while i < chunks.len()
        invariant
            i <= chunks@.len(),
            hv == headers_view(headers@),
            writes_view(out@) == header_writes(chunks@.take(i as int), hv),
        decreases chunks@.len() - i,
    {
        broadcast use vstd::std_specs::hash::group_hash_axioms;

        assert(chunks@.take(i + 1).drop_last() =~= chunks@.take(i as int));
        let n: usize = i + 1;
        assert(hv.contains_key(n) == headers@.contains_key(n));
        if let Some(h) = headers.get(&n) {
            note(&mut out, Write::SetHeader(chunks[i].id, h.clone()));
        }
        i = i + 1;
    }
    assert(chunks@.take(i as int) =~= chunks@);
    let ghost base = writes_view(out@);
    let mut windows: bool = true;
    let mut j: usize = 0;
    assert(writes_view(out@) =~= base + embed_writes(chunks@.take(0), hv, cap as int));
    while j < chunks.len()
        invariant
            j <= chunks@.len(),
            hv == headers_view(headers@),
            writes_view(out@) == base + embed_writes(chunks@.take(j as int), hv, cap as int),
            windows == forall|k: int| 0 <= k < j ==> (#[trigger] chunks@[k]).kind@ == "window"@,
        decreases chunks@.len() - j,
    {
        broadcast use vstd::std_specs::hash::group_hash_axioms;

        assert(chunks@.take(j + 1).drop_last() =~= chunks@.take(j as int));
        let n: usize = j + 1;
        assert(hv.contains_key(n) == headers@.contains_key(n));
        let header: Option<&str> = match headers.get(&n) {
            Some(h) => Some(h.as_str()),
            None => None,
        };
        assert(opt_str_view(header) == header_of(hv, n as int));
        note(&mut out, Write::EmbedChunk(chunks[j].id, embedding_input(header, chunks[j].text.as_str(), cap)));
        if !same_text(chunks[j].kind.as_str(), "window") {
            windows = false;
        }
        j = j + 1;
        assert(writes_view(out@) =~= base + embed_writes(chunks@.take(j as int), hv, cap as int));
    }
    assert(chunks@.take(j as int) =~= chunks@);
    add_summary(&mut out, path, blob, summary);
    let status: &str = if windows {
        "fallback"
    } else {
        "indexed"
    };
    note(&mut out, Write::SetStatus(owned(path), owned(status)));
    assert(writes_view(out@) =~= finalize_writes(path@, blob@, chunks@, reply@, cap as int));
    out
}

// --- what the writes leave behind ---

/// What the index holds of each path: a status, chunks, symbols, and a summary
/// with text.
pub ghost struct IndexView {
    pub status: Map<Seq<char>, Seq<char>>,
    pub chunked: Set<Seq<char>>,
    pub symbols: Set<Seq<char>>,
    pub told: Set<Seq<char>>,
}

/// `s` with `to` in place of `from`.
pub open spec fn moved_in_set(s: Set<Seq<char>>, from: Seq<char>, to: Seq<char>) -> Set<Seq<char>> {
    if s.contains(from) {
        s.remove(from).insert(to)
    } else {
        s
    }
}

/// What a write does to the index.
pub open spec fn effect(ix: IndexView, w: WriteView) -> IndexView {
    match w {
        WriteView::DeleteFile(p) => IndexView { status: ix.status.remove(p), chunked: ix.chunked.remove(p), ..ix },
        WriteView::DeleteSymbols(p) => IndexView { symbols: ix.symbols.remove(p), ..ix },
        WriteView::DeleteSummary(p) => IndexView { told: ix.told.remove(p), ..ix },
        WriteView::EmptySummary(p) => IndexView { told: ix.told.remove(p), ..ix },
        WriteView::ClearChunks(p) => IndexView { chunked: ix.chunked.remove(p), ..ix },
        WriteView::PutSkipped(p, blob, reason) => IndexView { status: ix.status.insert(p, "skipped"@), ..ix },
        WriteView::SetStatus(p, st) => IndexView { status: ix.status.insert(p, st), ..ix },
        WriteView::PutSummary(p, text, blob) => IndexView { told: ix.told.insert(p), ..ix },
        WriteView::PutModuleSummary(p, level, text, digest) => IndexView { told: ix.told.insert(p), ..ix },
        WriteView::MoveRows(a, b) => IndexView {
            status: if ix.status.contains_key(a) {
                ix.status.remove(a).insert(b, ix.status[a])
            } else {
                ix.status
            },
            chunked: moved_in_set(ix.chunked, a, b),
            told: moved_in_set(ix.told, a, b),
            ..ix
        },
        WriteView::MoveSymbols(a, b) => IndexView { symbols: moved_in_set(ix.symbols, a, b), ..ix },
        _ => ix,
    }
}

/// What a list of writes does to the index.
pub open spec fn effects(ix: IndexView, ws: Seq<WriteView>) -> IndexView
    decreases ws.len(),
{
    if ws.len() == 0 {
        ix
    } else {
        effect(effects(ix, ws.drop_last()), ws.last())
    }
}

proof fn lemma_effects_concat(ix: IndexView, a: Seq<WriteView>, b: Seq<WriteView>)
    ensures
        effects(ix, a + b) == effects(effects(ix, a), b),
    decreases b.len(),
{
    if b.len() == 0 {
        assert(a + b =~= a);
    } else {
        lemma_effects_concat(ix, a, b.drop_last());
        assert((a + b).drop_last() =~= a + b.drop_last());
    }
}

proof fn lemma_hush_effects(ix: IndexView, project: Seq<char>, dirs: Seq<Seq<char>>)
    ensures
        effects(ix, hush_writes(project, dirs)).status == ix.status,
        effects(ix, hush_writes(project, dirs)).chunked == ix.chunked,
        effects(ix, hush_writes(project, dirs)).symbols == ix.symbols,
        forall|p: Seq<char>| #[trigger]
            effects(ix, hush_writes(project, dirs)).told.contains(p) ==> ix.told.contains(p),
        forall|i: int|
            0 <= i < dirs.len() ==> !effects(ix, hush_writes(project, dirs)).told.contains(#[trigger] dirs[i]),
    decreases dirs.len(),
{
    if dirs.len() > 0 {
        let d = dirs.drop_last();
        let mid = effects(ix, hush_writes(project, d));
        lemma_hush_effects(ix, project, d);
        let pair = seq![
            WriteView::EmptySummary(dirs.last()),
            WriteView::InvalidateSource(mirror_source(project, dirs.last())),
        ];
        lemma_effects_concat(ix, hush_writes(project, d), pair);
        assert(pair.drop_last() =~= seq![WriteView::EmptySummary(dirs.last())]);
        assert(pair.drop_last().drop_last() =~= Seq::<WriteView>::empty());
        assert(effects(mid, pair.drop_last().drop_last()) == mid);
        assert(effects(mid, pair.drop_last()) == effect(mid, WriteView::EmptySummary(dirs.last())));
        let end = effects(ix, hush_writes(project, dirs));
        assert(end.told == mid.told.remove(dirs.last()));
        assert forall|i: int| 0 <= i < dirs.len() implies !end.told.contains(#[trigger] dirs[i]) by {
            if i < d.len() {
                assert(d[i] == dirs[i]);
            }
        }
    }
}

/// Marking a file as skipped leaves its status and nothing that was derived
/// from its content: no chunk, no symbol, no summary of it, and, where it had
/// one, no text in the summaries above it.
pub proof fn law_skipping_leaves_nothing_derived(
    ix: IndexView,
    project: Seq<char>,
    path: Seq<char>,
    blob: Seq<char>,
    reason: Seq<char>,
    had_summary: bool,
)
    ensures
        ({
            let after = effects(ix, skip_writes(project, path, blob, reason, had_summary));
            &&& after.status == ix.status.insert(path, "skipped"@)
            &&& after.chunked == ix.chunked.remove(path)
            &&& after.symbols == ix.symbols.remove(path)
            &&& !after.told.contains(path)
            &&& had_summary ==> forall|i: int|
                0 <= i < ancestors(path).len() ==> !after.told.contains(#[trigger] ancestors(path)[i])
        }),
{
    let w1 = WriteView::ClearChunks(path);
    let w2 = WriteView::DeleteSymbols(path);
    let w3 = WriteView::PutSkipped(path, blob, reason);
    let w4 = WriteView::DeleteSummary(path);
    let first = seq![w1, w2, w3, w4];
    assert(first.drop_last() =~= seq![w1, w2, w3]);
    assert(seq![w1, w2, w3].drop_last() =~= seq![w1, w2]);
    assert(seq![w1, w2].drop_last() =~= seq![w1]);
    assert(seq![w1].drop_last() =~= Seq::<WriteView>::empty());
    let i1 = effect(ix, w1);
    assert(effects(ix, Seq::<WriteView>::empty()) == ix);
    assert(effects(ix, seq![w1]) == i1);
    let i2 = effect(i1, w2);
    assert(effects(ix, seq![w1, w2]) == i2);
    let i3 = effect(i2, w3);
    assert(effects(ix, seq![w1, w2, w3]) == i3);
    let i4 = effect(i3, w4);
    assert(effects(ix, first) == i4);
    let middle = if had_summary {
        hush_writes(project, ancestors(path))
    } else {
        Seq::empty()
    };
    let last = seq![WriteView::MarkStale(ancestors(path))];
    lemma_effects_concat(ix, first, middle);
    lemma_effects_concat(ix, first + middle, last);
    assert(last.drop_last() =~= Seq::<WriteView>::empty());
    lemma_hush_effects(i4, project, ancestors(path));
    let i5 = effects(i4, middle);
    assert(effects(i5, Seq::<WriteView>::empty()) == i5);
    assert(effects(i5, last) == i5);
}

/// Deleting a file leaves nothing of it: no row, no chunk, no symbol, no
/// summary; every other path keeps what it had.
pub proof fn law_deleting_leaves_nothing(ix: IndexView, path: Seq<char>)
    ensures
        effects(ix, delete_writes(path)) == (IndexView {
            status: ix.status.remove(path),
            chunked: ix.chunked.remove(path),
            symbols: ix.symbols.remove(path),
            told: ix.told.remove(path),
        }),
{
    let w1 = WriteView::DeleteFile(path);
    let w2 = WriteView::DeleteSymbols(path);
    let w3 = WriteView::DeleteSummary(path);
    let w4 = WriteView::MarkStale(ancestors(path));
    let all = seq![w1, w2, w3, w4];
    assert(all.drop_last() =~= seq![w1, w2, w3]);
    assert(seq![w1, w2, w3].drop_last() =~= seq![w1, w2]);
    assert(seq![w1, w2].drop_last() =~= seq![w1]);
    assert(seq![w1].drop_last() =~= Seq::<WriteView>::empty());
    assert(effects(ix, Seq::<WriteView>::empty()) == ix);
    assert(effects(ix, seq![w1]) == effect(ix, w1));
    assert(effects(ix, seq![w1, w2]) == effect(effect(ix, w1), w2));
    assert(effects(ix, seq![w1, w2, w3]) == effect(effect(effect(ix, w1), w2), w3));
}

} // verus!
