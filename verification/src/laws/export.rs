//! Laws of exports and imports.

use vstd::prelude::*;

use crate::export::{
    export_lines, framed, is_one_line, kind_of, law_export_reads_back, row_action, takes_state, with_insight, with_memory,
    ImportCounts, LineKind, RowAction, Standing,
};
use crate::json::{member, Json};
use crate::order::{before, lemma_before_asymmetric, lemma_before_irreflexive};
use crate::text::lines;

verus! {

/// An export holds every row on a line of its own: first the header, then the
/// memories and the insights as they were given, last the state.
pub proof fn law_export_holds_every_row(
    header: Seq<char>,
    memories: Seq<Seq<char>>,
    insights: Seq<Seq<char>>,
    state: Seq<char>,
)
    requires
        is_one_line(header),
        is_one_line(state),
        forall|i: int| 0 <= i < memories.len() ==> is_one_line(#[trigger] memories[i]),
        forall|i: int| 0 <= i < insights.len() ==> is_one_line(#[trigger] insights[i]),
    ensures
        ({
            let ls = lines(framed(export_lines(header, memories, insights, state)));
            &&& ls.len() == memories.len() + insights.len() + 2
            &&& ls[0] == header
            &&& forall|i: int| 0 <= i < memories.len() ==> ls[1 + i] == #[trigger] memories[i]
            &&& forall|i: int| 0 <= i < insights.len() ==> ls[1 + memories.len() + i] == #[trigger] insights[i]
            &&& ls.last() == state
        }),
{
    let ls = export_lines(header, memories, insights, state);
    assert forall|i: int| 0 <= i < ls.len() implies is_one_line(#[trigger] ls[i]) by {
        if 1 <= i <= memories.len() {
            assert(ls[i] == memories[i - 1]);
        } else if memories.len() < i < ls.len() - 1 {
            assert(ls[i] == insights[i - 1 - memories.len()]);
        }
    }
    law_export_reads_back(ls);
}

/// Two exports with the same text hold the same rows: nothing is left out of
/// one that is in the other.
pub proof fn law_exports_tell_rows_apart(
    header: Seq<char>,
    memories: Seq<Seq<char>>,
    insights: Seq<Seq<char>>,
    other_memories: Seq<Seq<char>>,
    other_insights: Seq<Seq<char>>,
    state: Seq<char>,
)
    requires
        is_one_line(header),
        is_one_line(state),
        forall|i: int| 0 <= i < memories.len() ==> is_one_line(#[trigger] memories[i]),
        forall|i: int| 0 <= i < insights.len() ==> is_one_line(#[trigger] insights[i]),
        forall|i: int| 0 <= i < other_memories.len() ==> is_one_line(#[trigger] other_memories[i]),
        forall|i: int| 0 <= i < other_insights.len() ==> is_one_line(#[trigger] other_insights[i]),
        framed(export_lines(header, memories, insights, state)) == framed(
            export_lines(header, other_memories, other_insights, state),
        ),
    ensures
        memories + insights == other_memories + other_insights,
{
    law_export_holds_every_row(header, memories, insights, state);
    law_export_holds_every_row(header, other_memories, other_insights, state);
    let ls = lines(framed(export_lines(header, memories, insights, state)));
    let a = memories + insights;
    let b = other_memories + other_insights;
    assert forall|i: int| 0 <= i < a.len() implies a[i] == b[i] by {
        assert(a[i] == ls[1 + i]) by {
            if i < memories.len() {
                assert(memories[i] == ls[1 + i]);
            } else {
                assert(insights[i - memories.len()] == ls[1 + memories.len() + (i - memories.len())]);
            }
        }
        assert(b[i] == ls[1 + i]) by {
            if i < other_memories.len() {
                assert(other_memories[i] == ls[1 + i]);
            } else {
                assert(other_insights[i - other_memories.len()] == ls[1 + other_memories.len() + (i - other_memories.len())]);
            }
        }
    }
    assert(a =~= b);
}

/// A line behind the header is the row of the table that it names, and is
/// refused where it names none of the three.
pub proof fn law_table_names_the_row(j: Json, t: Seq<char>)
    requires
        member(j, "table"@) == Some(Json::Text(t)),
    ensures
        kind_of(j, true) == Ok::<LineKind, Seq<char>>(LineKind::Memory) <==> t == "memories"@,
        kind_of(j, true) == Ok::<LineKind, Seq<char>>(LineKind::Insight) <==> t == "insights"@,
        kind_of(j, true) == Ok::<LineKind, Seq<char>>(LineKind::ReflectState) <==> t == "reflect_state"@,
        kind_of(j, true) is Err <==> t != "memories"@ && t != "insights"@ && t != "reflect_state"@,
        kind_of(j, true) is Err ==> kind_of(j, true)->Err_0 == "unknown table '"@ + t + "' in export line"@,
{
    reveal_strlit("memories");
    reveal_strlit("insights");
    reveal_strlit("reflect_state");
    assert("memories"@.len() == 8 && "insights"@.len() == 8 && "reflect_state"@.len() == 13);
    assert("memories"@[0] == 'm' && "insights"@[0] == 'i');
}

/// The first line that is not blank has to be the header, whatever it holds
/// besides, and nothing else is a header later on.
pub proof fn law_header_comes_first(j: Json)
    ensures
        kind_of(j, false) == Ok::<LineKind, Seq<char>>(LineKind::Header) <==> member(j, "kind"@) == Some(
            Json::Text("mach-kb-export"@),
        ),
        kind_of(j, false) is Ok ==> kind_of(j, false)->Ok_0 == LineKind::Header,
        kind_of(j, true) is Ok ==> kind_of(j, true)->Ok_0 != LineKind::Header,
{
    reveal_strlit("mach-kb-export");
    assert("mach-kb-export"@.len() == 14);
}

/// How many memories were counted.
pub open spec fn memories_seen(c: ImportCounts) -> int {
    c.memories_inserted + c.memories_updated + c.memories_skipped
}

/// How many insights were counted.
pub open spec fn insights_seen(c: ImportCounts) -> int {
    c.insights_inserted + c.insights_updated + c.insights_skipped
}

/// Every row is counted once, under what was done with it, and in its own
/// table alone.
pub proof fn law_every_row_is_counted_once(c: ImportCounts, a: RowAction)
    requires
        c.has_room(),
    ensures
        memories_seen(with_memory(c, a)) == memories_seen(c) + 1,
        insights_seen(with_memory(c, a)) == insights_seen(c),
        insights_seen(with_insight(c, a)) == insights_seen(c) + 1,
        memories_seen(with_insight(c, a)) == memories_seen(c),
        with_memory(c, a).memories_inserted == c.memories_inserted + (if a == RowAction::Insert { 1int } else { 0 }),
        with_memory(c, a).memories_updated == c.memories_updated + (if a == RowAction::Update { 1int } else { 0 }),
        with_insight(c, a).insights_inserted == c.insights_inserted + (if a == RowAction::Insert { 1int } else { 0 }),
        with_insight(c, a).insights_updated == c.insights_updated + (if a == RowAction::Update { 1int } else { 0 }),
        with_memory(c, a).reflect_state_updated == c.reflect_state_updated,
        with_insight(c, a).reflect_state_updated == c.reflect_state_updated,
{
}

/// A row is refused only where it exists and nothing is merged; it is inserted
/// exactly where it does not exist; and of two rows of one id that differ, the
/// incoming one is written exactly where it is not the older one.
pub proof fn law_newer_row_wins(merge: bool, s: Standing)
    ensures
        row_action(merge, s) is None <==> s.exists && !merge,
        row_action(merge, s) == Some(RowAction::Insert) <==> !s.exists,
        s.exists && merge && !s.identical ==> (row_action(merge, s) == Some(RowAction::Update) <==> !before(
            s.incoming_modified@,
            s.existing_modified@,
        )),
        s.exists && merge && s.identical ==> row_action(merge, s) == Some(RowAction::Skip),
{
}

/// Of two states of reflection the later stands: where one is taken over the
/// other, the other is not taken over it, unless they ran at one time.
pub proof fn law_later_state_wins(a: Seq<char>, b: Seq<char>)
    ensures
        before(a, b) ==> !takes_state(true, Some(a), Some(b)) && takes_state(true, Some(b), Some(a)),
        takes_state(true, Some(a), Some(a)),
        takes_state(true, Some(a), None),
        !takes_state(true, None, Some(a)),
        !takes_state(true, None, None),
        takes_state(false, None, Some(a)),
        takes_state(false, Some(a), Some(b)),
{
    lemma_before_irreflexive(a);
    if before(a, b) {
        lemma_before_asymmetric(a, b);
    }
}

} // verus!
