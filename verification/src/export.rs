//! Backup and merge: which lines an export is made of, and what importing each
//! of them does.
//!
//! An export is one JSON object per line: a header, the memories, the insights
//! and the state of reflection. A plain import only ever fills an empty
//! database; a merging one lets the last write win, row by row.

use serde_json::Value;
use vstd::prelude::*;

use crate::code_index::rows::opt_str_view;
use crate::error::KbError;
use crate::json::{content, json_member, member, parse_json, parsed, Json};
use crate::numeral::{dec, push_i64};
use crate::order::{before, lemma_before_asymmetric, lemma_before_total, lemma_before_transitive, text_before};
use crate::text::{
    chars_of, find_char, lines, owned, push_text, same_text, string_of, texts, trim, trimmed,
};

verus! {

/// The version of the format.
pub const EXPORT_VERSION: u32 = 1;

/// What the header of an export calls it.
pub const EXPORT_KIND: &'static str = "mach-kb-export";

/// How many rows an export has.
#[derive(Debug, Clone, Copy, PartialEq, Eq, Structural)]
pub struct ExportCounts {
    pub memories: usize,
    pub insights: usize,
}

/// How many rows of an import were inserted, updated and skipped.
#[derive(Debug, Clone, Copy, PartialEq, Eq, Structural)]
pub struct ImportCounts {
    pub memories_inserted: usize,
    pub memories_updated: usize,
    pub memories_skipped: usize,
    pub insights_inserted: usize,
    pub insights_updated: usize,
    pub insights_skipped: usize,
    pub reflect_state_updated: bool,
}

impl ImportCounts {
    /// Nothing imported yet.
    pub open spec fn is_none(self) -> bool {
        self == (ImportCounts {
            memories_inserted: 0,
            memories_updated: 0,
            memories_skipped: 0,
            insights_inserted: 0,
            insights_updated: 0,
            insights_skipped: 0,
            reflect_state_updated: false,
        })
    }

    /// One more row of either table can be counted.
    pub open spec fn has_room(self) -> bool {
        &&& self.memories_inserted < usize::MAX
        &&& self.memories_updated < usize::MAX
        &&& self.memories_skipped < usize::MAX
        &&& self.insights_inserted < usize::MAX
        &&& self.insights_updated < usize::MAX
        &&& self.insights_skipped < usize::MAX
    }
}

// --- writing ---

/// The text whose lines are given.
pub open spec fn framed(ls: Seq<Seq<char>>) -> Seq<char>
    decreases ls.len(),
{
    if ls.len() == 0 {
        Seq::empty()
    } else {
        framed(ls.drop_last()) + ls.last() + "\n"@
    }
}

/// The lines of an export, in order.
pub open spec fn export_lines(
    header: Seq<char>,
    memories: Seq<Seq<char>>,
    insights: Seq<Seq<char>>,
    state: Seq<char>,
) -> Seq<Seq<char>> {
    seq![header] + memories + insights + seq![state]
}

fn push_line(s: &mut Vec<char>, line: &str, Ghost(done): Ghost<Seq<Seq<char>>>)
    requires
        old(s)@ == framed(done),
    ensures
        final(s)@ == framed(done.push(line@)),
{
    push_text(s, line);
    push_text(s, "\n");
    assert(done.push(line@).drop_last() =~= done);
    assert(s@ =~= framed(done) + line@ + "\n"@);
}

fn push_lines(s: &mut Vec<char>, v: &[String], Ghost(done): Ghost<Seq<Seq<char>>>)
    requires
        old(s)@ == framed(done),
    ensures
        final(s)@ == framed(done + texts(v@)),
{
    let ghost tv = texts(v@);
    let mut i: usize = 0;
    assert(done + tv.take(0) =~= done);
    while i < v.len()
        invariant
            i <= v@.len(),
            tv == texts(v@),
            s@ == framed(done + tv.take(i as int)),
        decreases v@.len() - i,
    {
        push_line(s, v[i].as_str(), Ghost(done + tv.take(i as int)));
        i = i + 1;
        assert((done + tv.take(i - 1)).push(tv[i - 1]) =~= done + tv.take(i as int));
    }
    assert(tv.take(i as int) =~= tv);
}

/// Puts an export together from its rows, one JSON object each, and counts them:
/// the header, the memories, the insights and the state of reflection.
pub fn export_to_writer(header: &str, memories: &[String], insights: &[String], state: &str) -> (r: (String, ExportCounts))
    ensures
        (r.0)@ == framed(export_lines(header@, texts(memories@), texts(insights@), state@)),
        r.1.memories == memories@.len(),
        r.1.insights == insights@.len(),
{
    let ghost none: Seq<Seq<char>> = Seq::empty();
    let ghost h = seq![header@];
    let ghost m = texts(memories@);
    let ghost n = texts(insights@);
    let mut s: Vec<char> = Vec::new();
    assert(s@ =~= framed(none));
    push_line(&mut s, header, Ghost(none));
    assert(none.push(header@) =~= h);
    push_lines(&mut s, memories, Ghost(h));
    push_lines(&mut s, insights, Ghost(h + m));
    push_line(&mut s, state, Ghost(h + m + n));
    assert((h + m + n).push(state@) =~= export_lines(header@, m, n, state@));
    (string_of(s.as_slice()), ExportCounts { memories: memories.len(), insights: insights.len() })
}

/// Whether a row stays on one line, as every JSON object written without white
/// space does.
pub open spec fn is_one_line(l: Seq<char>) -> bool {
    !l.contains('\n') && (l.len() > 0 ==> l.last() != '\r')
}

proof fn lemma_framed_front(ls: Seq<Seq<char>>)
    requires
        ls.len() > 0,
    ensures
        framed(ls) == ls[0] + "\n"@ + framed(ls.drop_first()),
    decreases ls.len(),
{
    if ls.len() == 1 {
        assert(ls.drop_last() =~= Seq::empty());
        assert(ls.drop_first() =~= Seq::empty());
        assert(framed(ls) =~= ls[0] + "\n"@ + framed(ls.drop_first()));
    } else {
        lemma_framed_front(ls.drop_last());
        assert(ls.drop_last().drop_first() =~= ls.drop_first().drop_last());
        assert(ls.drop_last()[0] == ls[0]);
        assert(ls.drop_first().last() == ls.last());
        assert(framed(ls) =~= ls[0] + "\n"@ + framed(ls.drop_first()));
    }
}

/// The lines of an export read back as they were written.
pub proof fn law_export_reads_back(ls: Seq<Seq<char>>)
    requires
        forall|i: int| 0 <= i < ls.len() ==> is_one_line(#[trigger] ls[i]),
    ensures
        lines(framed(ls)) == ls,
    decreases ls.len(),
{
    if ls.len() == 0 {
        assert(lines(framed(ls)) =~= ls);
    } else {
        reveal_strlit("\n");
        lemma_framed_front(ls);
        let s = framed(ls);
        let rest = framed(ls.drop_first());
        let n = ls[0].len() as int;
        assert(is_one_line(ls[0]));
        assert(s[n] == '\n');
        assert forall|j: int| 0 <= j < n implies s[j] != '\n' by {
            assert(s[j] == ls[0][j]);
            assert(ls[0].contains(ls[0][j]));
        }
        crate::text::lemma_find_char(s, '\n');
        assert(find_char(s, '\n') == n);
        assert(s.take(n) =~= ls[0]);
        assert(s.skip(n + 1) =~= rest);
        assert forall|i: int| 0 <= i < ls.drop_first().len() implies is_one_line(#[trigger] ls.drop_first()[i]) by {
            assert(ls.drop_first()[i] == ls[i + 1]);
        }
        law_export_reads_back(ls.drop_first());
        assert(lines(s) =~= seq![ls[0]] + ls.drop_first());
        assert(lines(s) =~= ls);
    }
}

// --- lines ---

/// What a line of an export is.
#[derive(Debug, Clone, Copy, PartialEq, Eq, Structural)]
pub enum LineKind {
    Blank,
    Header,
    Memory,
    Insight,
    ReflectState,
}

/// The text under a key, empty where there is none.
pub open spec fn text_under(j: Json, key: Seq<char>) -> Seq<char> {
    match member(j, key) {
        Some(Json::Text(s)) => s,
        _ => Seq::empty(),
    }
}

/// What a parsed line is, or why it is refused: the first must be the header,
/// every other names the table of its row.
pub open spec fn kind_of(j: Json, saw_header: bool) -> Result<LineKind, Seq<char>> {
    let table = text_under(j, "table"@);
    if !saw_header {
        if text_under(j, "kind"@) == EXPORT_KIND@ {
            Ok(LineKind::Header)
        } else {
            Err("not a mach-kb export file (missing/invalid header)"@)
        }
    } else if table == "memories"@ {
        Ok(LineKind::Memory)
    } else if table == "insights"@ {
        Ok(LineKind::Insight)
    } else if table == "reflect_state"@ {
        Ok(LineKind::ReflectState)
    } else {
        Err("unknown table '"@ + table + "' in export line"@)
    }
}

/// What a line is, or why it is refused.
pub open spec fn line_kind(line: Seq<char>, saw_header: bool) -> Result<LineKind, Seq<char>> {
    let l = trim(line);
    if l.len() == 0 {
        Ok(LineKind::Blank)
    } else {
        match parsed(l) {
            Ok(j) => kind_of(j, saw_header),
            Err(e) => Err("malformed export line: "@ + e),
        }
    }
}

/// What a decision on a line came to.
pub open spec fn kind_view(r: Result<LineKind, KbError>) -> Result<LineKind, Seq<char>> {
    match r {
        Ok(k) => Ok(k),
        Err(e) => Err(e@),
    }
}

fn member_text<'a>(v: &'a Value, key: &str) -> (r: &'a str)
    ensures
        r@ == text_under(content(*v), key@),
{
    match json_member(v, key) {
        Some(x) => match x.as_str() {
            Some(s) => s,
            None => empty_text(),
        },
        None => empty_text(),
    }
}

fn empty_text() -> (r: &'static str)
    ensures
        r@ == Seq::<char>::empty(),
{
    let s: &'static str = "";
    proof {
        reveal_strlit("");
        assert(s@ =~= Seq::<char>::empty());
    }
    s
}

/// Decides what a parsed line is.
pub fn kind_of_line(value: &Value, saw_header: bool) -> (r: Result<LineKind, KbError>)
    ensures
        r is Err ==> r->Err_0 is Other,
        kind_view(r) == kind_of(content(*value), saw_header),
{
    if !saw_header {
        if same_text(member_text(value, "kind"), EXPORT_KIND) {
            return Ok(LineKind::Header);
        }
        return Err(KbError::Other(owned("not a mach-kb export file (missing/invalid header)")));
    }
    let table: &str = member_text(value, "table");
    if same_text(table, "memories") {
        Ok(LineKind::Memory)
    } else if same_text(table, "insights") {
        Ok(LineKind::Insight)
    } else if same_text(table, "reflect_state") {
        Ok(LineKind::ReflectState)
    } else {
        let mut m = chars_of("unknown table '");
        push_text(&mut m, table);
        push_text(&mut m, "' in export line");
        Err(KbError::Other(string_of(m.as_slice())))
    }
}

/// An import under way: whether it merges, whether the header was read, and
/// what was imported so far.
#[derive(Debug, Clone, Copy)]
pub struct Import {
    pub merge: bool,
    pub saw_header: bool,
    pub counts: ImportCounts,
}

impl Import {
    /// Begins an import. Without merging, a database that is not empty is
    /// refused: two stores are never blended silently.
    pub fn start(merge: bool, db_is_empty: bool) -> (r: Result<Import, KbError>)
        ensures
            r is Err ==> r->Err_0 is Other,
            r is Ok <==> merge || db_is_empty,
            r is Ok ==> r->Ok_0.merge == merge && !r->Ok_0.saw_header && r->Ok_0.counts.is_none(),
            r is Err ==> r->Err_0@ == "refusing to import into a non-empty database without --merge"@,
    {
        if !merge && !db_is_empty {
            return Err(KbError::Other(owned("refusing to import into a non-empty database without --merge")));
        }
        Ok(
            Import {
                merge,
                saw_header: false,
                counts: ImportCounts {
                    memories_inserted: 0,
                    memories_updated: 0,
                    memories_skipped: 0,
                    insights_inserted: 0,
                    insights_updated: 0,
                    insights_skipped: 0,
                    reflect_state_updated: false,
                },
            },
        )
    }

    /// Takes the next line, and says what it is. A line that is refused ends
    /// the import.
    pub fn import_from_reader(&mut self, line: &str) -> (r: Result<LineKind, KbError>)
        ensures
            r is Err ==> r->Err_0 is Other,
            kind_view(r) == line_kind(line@, old(self).saw_header),
            final(self).merge == old(self).merge,
            final(self).counts == old(self).counts,
            final(self).saw_header == (old(self).saw_header || r == Ok::<LineKind, KbError>(LineKind::Header)),
    {
        let lc = chars_of(line);
        let t = trimmed(lc.as_slice());
        if t.len() == 0 {
            return Ok(LineKind::Blank);
        }
        let text = string_of(t);
        match parse_json(text.as_str()) {
            Err(e) => {
                let mut m = chars_of("malformed export line: ");
                push_text(&mut m, e.as_str());
                Err(KbError::Other(string_of(m.as_slice())))
            },
            Ok(value) => {
                let r = kind_of_line(&value, self.saw_header);
                if let Ok(LineKind::Header) = r {
                    self.saw_header = true;
                }
                r
            },
        }
    }

    /// Ends an import: one in which no header was read is refused.
    pub fn finish(&self) -> (r: Result<ImportCounts, KbError>)
        ensures
            r is Err ==> r->Err_0 is Other,
            r is Ok <==> self.saw_header,
            r is Ok ==> r->Ok_0 == self.counts,
            r is Err ==> r->Err_0@ == "empty or missing export header"@,
    {
        if self.saw_header {
            Ok(self.counts)
        } else {
            Err(KbError::Other(owned("empty or missing export header")))
        }
    }
}

// --- rows ---

/// What importing a row does.
#[derive(Debug, Clone, Copy, PartialEq, Eq, Structural)]
pub enum RowAction {
    Insert,
    Update,
    Skip,
}

/// How an incoming row stands to the one with its id: whether there is one,
/// whether they are the same, and when each was last modified.
#[derive(Debug, Clone)]
pub struct Standing {
    pub exists: bool,
    pub identical: bool,
    pub incoming_modified: String,
    pub existing_modified: String,
}

/// What importing a row does: a new row is inserted, the same one is skipped,
/// and of two different ones the later modified stands. `None` where a row
/// exists and the import does not merge.
pub open spec fn row_action(merge: bool, s: Standing) -> Option<RowAction> {
    if !s.exists {
        Some(RowAction::Insert)
    } else if !merge {
        None
    } else if s.identical || before(s.incoming_modified@, s.existing_modified@) {
        Some(RowAction::Skip)
    } else {
        Some(RowAction::Update)
    }
}

fn decide_row(merge: bool, s: &Standing) -> (r: Option<RowAction>)
    ensures
        r == row_action(merge, *s),
{
    if !s.exists {
        Some(RowAction::Insert)
    } else if !merge {
        None
    } else if s.identical || text_before(s.incoming_modified.as_str(), s.existing_modified.as_str()) {
        Some(RowAction::Skip)
    } else {
        Some(RowAction::Update)
    }
}

/// The counts with one more memory.
pub open spec fn with_memory(c: ImportCounts, a: RowAction) -> ImportCounts {
    match a {
        RowAction::Insert => ImportCounts { memories_inserted: (c.memories_inserted + 1) as usize, ..c },
        RowAction::Update => ImportCounts { memories_updated: (c.memories_updated + 1) as usize, ..c },
        RowAction::Skip => ImportCounts { memories_skipped: (c.memories_skipped + 1) as usize, ..c },
    }
}

/// The counts with one more insight.
pub open spec fn with_insight(c: ImportCounts, a: RowAction) -> ImportCounts {
    match a {
        RowAction::Insert => ImportCounts { insights_inserted: (c.insights_inserted + 1) as usize, ..c },
        RowAction::Update => ImportCounts { insights_updated: (c.insights_updated + 1) as usize, ..c },
        RowAction::Skip => ImportCounts { insights_skipped: (c.insights_skipped + 1) as usize, ..c },
    }
}

/// The refusal of a row that exists.
pub open spec fn exists_refusal(what: Seq<char>, id: int) -> Seq<char> {
    what + " #"@ + dec(id) + " already exists (pass --merge to upsert)"@
}

fn refuse_existing(what: &str, id: i64) -> (r: KbError)
    ensures
        r is Other,
        r@ == exists_refusal(what@, id as int),
{
    let mut m = chars_of(what);
    push_text(&mut m, " #");
    push_i64(&mut m, id);
    push_text(&mut m, " already exists (pass --merge to upsert)");
    KbError::Other(string_of(m.as_slice()))
}

/// Decides what importing a memory does, and counts it. Without merging, a
/// memory that exists is refused.
pub fn import_memory_row(id: i64, standing: &Standing, merge: bool, counts: &mut ImportCounts) -> (r: Result<
    RowAction,
    KbError,
>)
    requires
        old(counts).has_room(),
    ensures
        r is Err ==> r->Err_0 is Other,
        r is Ok <==> row_action(merge, *standing) is Some,
        r is Ok ==> Some(r->Ok_0) == row_action(merge, *standing) && *final(counts) == with_memory(*old(counts), r->Ok_0),
        r is Err ==> r->Err_0@ == exists_refusal("memory"@, id as int) && *final(counts) == *old(counts),
{
    match decide_row(merge, standing) {
        None => Err(refuse_existing("memory", id)),
        Some(a) => {
            match a {
                RowAction::Insert => {
                    counts.memories_inserted = counts.memories_inserted + 1;
                },
                RowAction::Update => {
                    counts.memories_updated = counts.memories_updated + 1;
                },
                RowAction::Skip => {
                    counts.memories_skipped = counts.memories_skipped + 1;
                },
            }
            Ok(a)
        },
    }
}

/// Decides what importing an insight does, and counts it. Without merging, an
/// insight that exists is refused.
pub fn import_insight_row(id: i64, standing: &Standing, merge: bool, counts: &mut ImportCounts) -> (r: Result<
    RowAction,
    KbError,
>)
    requires
        old(counts).has_room(),
    ensures
        r is Err ==> r->Err_0 is Other,
        r is Ok <==> row_action(merge, *standing) is Some,
        r is Ok ==> Some(r->Ok_0) == row_action(merge, *standing) && *final(counts) == with_insight(*old(counts), r->Ok_0),
        r is Err ==> r->Err_0@ == exists_refusal("insight"@, id as int) && *final(counts) == *old(counts),
{
    match decide_row(merge, standing) {
        None => Err(refuse_existing("insight", id)),
        Some(a) => {
            match a {
                RowAction::Insert => {
                    counts.insights_inserted = counts.insights_inserted + 1;
                },
                RowAction::Update => {
                    counts.insights_updated = counts.insights_updated + 1;
                },
                RowAction::Skip => {
                    counts.insights_skipped = counts.insights_skipped + 1;
                },
            }
            Ok(a)
        },
    }
}

/// Whether the state of reflection is taken over: always without merging; with
/// it, where its run is not older. One that never ran loses to any other.
pub open spec fn takes_state(merge: bool, incoming: Option<Seq<char>>, existing: Option<Seq<char>>) -> bool {
    !merge || match (incoming, existing) {
        (Some(i), Some(e)) => !before(i, e),
        (Some(_), None) => true,
        (None, _) => false,
    }
}

/// Decides whether the state of reflection is taken over, and notes it.
pub fn import_reflect_state_row(
    incoming: Option<&str>,
    existing: Option<&str>,
    merge: bool,
    counts: &mut ImportCounts,
) -> (r: bool)
    ensures
        r == takes_state(merge, opt_str_view(incoming), opt_str_view(existing)),
        *final(counts) == (ImportCounts {
            reflect_state_updated: old(counts).reflect_state_updated || r,
            ..*old(counts)
        }),
{
    let take: bool = !merge || match (incoming, existing) {
        (Some(i), Some(e)) => !text_before(i, e),
        (Some(_), None) => true,
        (None, _) => false,
    };
    if take {
        counts.reflect_state_updated = true;
    }
    take
}

// --- merging ---

/// A row: when it was last modified, and what it holds.
pub ghost struct Version {
    pub modified: Seq<char>,
    pub body: Seq<char>,
}

/// What is stored of an id once a row for it is merged.
pub open spec fn merged(stored: Option<Version>, row: Version) -> Option<Version> {
    match stored {
        None => Some(row),
        Some(s) => if s == row || before(row.modified, s.modified) {
            Some(s)
        } else {
            Some(row)
        },
    }
}

/// Merging does what the decision on the row says: an insertion or an update
/// writes the row, a skip keeps what is stored.
pub proof fn law_merging_follows_the_decision(stored: Option<Version>, row: Version, s: Standing)
    requires
        s.exists == stored is Some,
        s.incoming_modified@ == row.modified,
        stored is Some ==> s.existing_modified@ == (stored->0).modified && s.identical == (stored->0 == row),
    ensures
        row_action(true, s) is Some,
        merged(stored, row) == match row_action(true, s)->0 {
            RowAction::Skip => stored,
            _ => Some(row),
        },
{
}

/// Importing the same row again changes nothing.
pub proof fn law_merging_again_changes_nothing(stored: Option<Version>, row: Version)
    ensures
        merged(merged(stored, row), row) == merged(stored, row),
{
    crate::order::lemma_before_irreflexive(row.modified);
}

/// What is stored never gets older.
pub proof fn law_merging_never_goes_back(stored: Version, row: Version)
    ensures
        !before((merged(Some(stored), row)->0).modified, stored.modified),
{
    crate::order::lemma_before_irreflexive(stored.modified);
}

/// Two rows can be merged in either order, and the last write wins, unless they
/// are different rows of one time that is not older than what is stored.
pub proof fn law_merge_order_does_not_matter(stored: Option<Version>, a: Version, b: Version)
    requires
        a.modified != b.modified || a == b || (stored is Some && before(a.modified, (stored->0).modified)),
    ensures
        merged(merged(stored, a), b) == merged(merged(stored, b), a),
{
    crate::order::lemma_before_irreflexive(a.modified);
    crate::order::lemma_before_irreflexive(b.modified);
    lemma_before_total(a.modified, b.modified);
    if before(a.modified, b.modified) {
        lemma_before_asymmetric(a.modified, b.modified);
    } else if before(b.modified, a.modified) {
        lemma_before_asymmetric(b.modified, a.modified);
    }
    if let Some(s) = stored {
        lemma_before_total(s.modified, a.modified);
        lemma_before_total(s.modified, b.modified);
        if before(s.modified, a.modified) {
            lemma_before_asymmetric(s.modified, a.modified);
        } else if before(a.modified, s.modified) {
            lemma_before_asymmetric(a.modified, s.modified);
        }
        if before(s.modified, b.modified) {
            lemma_before_asymmetric(s.modified, b.modified);
        } else if before(b.modified, s.modified) {
            lemma_before_asymmetric(b.modified, s.modified);
        }
        if before(a.modified, s.modified) && before(s.modified, b.modified) {
            lemma_before_transitive(a.modified, s.modified, b.modified);
        }
        if before(b.modified, s.modified) && before(s.modified, a.modified) {
            lemma_before_transitive(b.modified, s.modified, a.modified);
        }
    }
}

} // verus!
