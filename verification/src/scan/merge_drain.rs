//! Merging sources whose batches are all at hand.

use std::collections::VecDeque;

use vstd::prelude::*;

use super::merge_laws::{MergeTurn, SourceRow, comes, given, is_among, is_merge, is_merged_in_order,
    is_run, lemma_ended, lemma_room, result_rows, returned, source_rows, stream_keys, streams,
    supplied_rows, theorem_drained, turned};
use super::merge_order::{RowKey, in_order, least};
use super::merge_sources::{LoadedBatch, MergeAction, MergeSourcesOperator, SubSource, all_ready,
    collected, column_typed, first_needing, fresh_source, lemma_all_typed, lemma_none_mistyped,
    pick_views, renewed, settled, shown_cells, stepped, supplied, typed};
use super::merged_rows::{merges, theorem_merges};
use crate::columnar::{Batch, BatchView, CellView, batch_view, no_nulls, schema_fields};
use crate::error::BqliteError;

verus! {

/// The rows of the first `n` batches of source `i`.
pub open spec fn list_rows(op: MergeSourcesOperator, i: int, list: Seq<Batch>, n: int) -> Seq<
    SourceRow,
>
    decreases n,
{
    if n <= 0 {
        Seq::empty()
    } else {
        list_rows(op, i, list, n - 1) + source_rows(op, i, batch_view(list[n - 1]))
    }
}

/// The batches of each source.
pub open spec fn batch_lists(sources: Seq<VecDeque<Batch>>) -> Seq<Seq<Batch>> {
    Seq::new(sources.len(), |i: int| sources[i]@)
}

/// The rows of each source.
pub open spec fn all_rows(op: MergeSourcesOperator, lists: Seq<Seq<Batch>>) -> Seq<Seq<SourceRow>> {
    Seq::new(lists.len(), |i: int| list_rows(op, i, lists[i], lists[i].len() as int))
}

/// The rows of the first `n` batches of the result.
pub open spec fn rows_out(out: Seq<Batch>, n: int) -> Seq<Seq<Option<CellView>>>
    decreases n,
{
    if n <= 0 {
        Seq::empty()
    } else {
        rows_out(out, n - 1) + result_rows(batch_view(out[n - 1]))
    }
}

/// Whether a batch has the columns of the result, and as many rows as a batch may have.
pub open spec fn is_result(op: MergeSourcesOperator, b: BatchView) -> bool {
    &&& b.fields == schema_fields(op.output_schema@)
    &&& b.columns.len() == op.output_fields@.len()
    &&& 0 < b.rows <= op.batch_target_rows
}

/// Whether a batch of source `i` is empty or has the columns that it must have.
pub open spec fn is_taken(op: MergeSourcesOperator, i: int, b: BatchView) -> bool {
    b.rows == 0 || op.descriptors@[i].can_take(b)
}

/// Whether every batch of every source can be taken.
pub open spec fn all_taken(op: MergeSourcesOperator, lists: Seq<Seq<Batch>>) -> bool {
    forall|i: int, k: int|
        0 <= i < lists.len() && 0 <= k < lists[i].len() ==> is_taken(
            op,
            i,
            batch_view(#[trigger] lists[i][k]),
        )
}

/// Whether the columns of a batch of source `i` are of the types of the result.
pub open spec fn types_fit(op: MergeSourcesOperator, i: int, b: BatchView) -> bool {
    &&& op.output_fields@.len() > 0
    &&& forall|o: int|
        0 <= o < op.output_fields@.len() && op.source_table_id_col != Some(o as usize) ==> ((
        #[trigger] op.descriptors@[i].reverse_col_map@[o]) matches Some(c) ==> b.columns[c as int].data_type
            == op.output_fields@[o].data_type)
}

/// Whether the cells of a row of the result are null only where they may be.
pub open spec fn row_fits(op: MergeSourcesOperator, cells: Seq<Option<CellView>>) -> bool {
    forall|o: int|
        0 <= o < op.output_fields@.len() ==> (#[trigger] op.output_fields@[o]).nullable
            || cells[o] is Some
}

/// Whether the result can show a batch of source `i`: its columns are of the types of the
/// result, and no row is null where the result must not be.
pub open spec fn fits_result(op: MergeSourcesOperator, i: int, b: BatchView) -> bool {
    &&& types_fit(op, i, b)
    &&& forall|r: int| 0 <= r < b.rows ==> row_fits(op, (#[trigger] source_rows(op, i, b)[r]).cells)
}

/// Whether the result can show every batch with rows.
pub open spec fn all_fit(op: MergeSourcesOperator, lists: Seq<Seq<Batch>>) -> bool {
    forall|i: int, k: int|
        0 <= i < lists.len() && 0 <= k < lists[i].len() && batch_view(
            #[trigger] lists[i][k],
        ).rows > 0 ==> fits_result(op, i, batch_view(lists[i][k]))
}

/// Whether the result can show a batch at hand, if there is one.
spec fn held_fits(op: MergeSourcesOperator, i: int, held: Option<LoadedBatch>) -> bool {
    held matches Some(b) ==> fits_result(op, i, batch_view(b.batch))
}

/// Whether the result can show the batches at hand.
spec fn all_held_fit(op: MergeSourcesOperator, subs: Seq<SubSource>) -> bool {
    forall|i: int|
        0 <= i < subs.len() ==> held_fits(op, i, (#[trigger] subs[i]).current) && held_fits(
            op,
            i,
            subs[i].pending,
        )
}

/// Whether a batch is at hand.
spec fn is_held(b: Batch, s: SubSource) -> bool {
    ||| s.current matches Some(c) && c.batch == b
    ||| s.pending matches Some(c) && c.batch == b
}

/// Whether the columns of the first batches of a source, but for those at hand, are of the
/// types of the result.
spec fn types_seen(op: MergeSourcesOperator, i: int, list: Seq<Batch>, used: int, s: SubSource) -> bool {
    forall|k: int|
        0 <= k < used && batch_view(#[trigger] list[k]).rows > 0 ==> is_held(list[k], s)
            || types_fit(op, i, batch_view(list[k]))
}

/// Whether there are rows in every batch at hand, and, unless rows were picked, rows left
/// in every current one.
spec fn rows_at_hand(subs: Seq<SubSource>, picked: bool) -> bool {
    forall|i: int|
        0 <= i < subs.len() ==> {
            &&& (#[trigger] subs[i]).current matches Some(c) ==> c.rows().len() > 0
            &&& subs[i].pending matches Some(c) ==> c.rows().len() > 0
            &&& subs[i].current is Some && !picked ==> subs[i].cursor < subs[i].rows().len()
        }
}

/// Whether the rows of the result are null only where they may be.
spec fn rows_fit(op: MergeSourcesOperator, rows: Seq<Seq<Option<CellView>>>) -> bool {
    forall|t: int| 0 <= t < rows.len() ==> row_fits(op, #[trigger] rows[t])
}

/// How often source `i` can still be asked: for each batch left, and to learn that there
/// is none.
spec fn asks(list: Seq<Batch>, used: int, s: SubSource) -> int {
    list.len() - used + if s.exhausted {
        0int
    } else {
        1int
    }
}

/// How often the first `n` sources can still be asked.
spec fn asks_left(lists: Seq<Seq<Batch>>, used: Seq<int>, subs: Seq<SubSource>, n: int) -> int
    decreases n,
{
    if n <= 0 {
        0
    } else {
        asks_left(lists, used, subs, n - 1) + asks(lists[n - 1], used[n - 1], subs[n - 1])
    }
}

proof fn lemma_asks_bound(lists: Seq<Seq<Batch>>, used: Seq<int>, subs: Seq<SubSource>, n: int)
    requires
        forall|i: int| 0 <= i < n ==> #[trigger] used[i] <= lists[i].len(),
    ensures
        asks_left(lists, used, subs, n) >= 0,
    decreases n,
{
    if n > 0 {
        lemma_asks_bound(lists, used, subs, n - 1);
        let _ = used[n - 1];
    }
}

/// Only what is asked of a source changes how often it can be asked.
proof fn lemma_asks_same(
    lists: Seq<Seq<Batch>>,
    used: Seq<int>,
    subs: Seq<SubSource>,
    later: Seq<SubSource>,
    n: int,
)
    requires
        forall|i: int| 0 <= i < n ==> (#[trigger] later[i]).exhausted == subs[i].exhausted,
    ensures
        asks_left(lists, used, later, n) == asks_left(lists, used, subs, n),
    decreases n,
{
    if n > 0 {
        lemma_asks_same(lists, used, subs, later, n - 1);
        let _ = later[n - 1];
    }
}

proof fn lemma_asked(
    lists: Seq<Seq<Batch>>,
    used: Seq<int>,
    subs: Seq<SubSource>,
    now_used: Seq<int>,
    later: Seq<SubSource>,
    k: int,
    n: int,
)
    requires
        0 <= k,
        forall|i: int|
            0 <= i < n && i != k ==> (#[trigger] later[i]).exhausted == subs[i].exhausted
                && now_used[i] == used[i],
        k < n ==> asks(lists[k], now_used[k], later[k]) < asks(lists[k], used[k], subs[k]),
    ensures
        asks_left(lists, now_used, later, n) <= asks_left(lists, used, subs, n),
        k < n ==> asks_left(lists, now_used, later, n) < asks_left(lists, used, subs, n),
    decreases n,
{
    if n > 0 {
        lemma_asked(lists, used, subs, now_used, later, k, n - 1);
        if n - 1 != k {
            let _ = later[n - 1];
        }
    }
}

/// The rows of source `i` that a turn supplies.
spec fn rows_given(op: MergeSourcesOperator, turn: MergeTurn, i: int) -> Seq<SourceRow> {
    match turn {
        MergeTurn::Supply(j, Some(b)) => if j == i {
            source_rows(op, i, batch_view(b))
        } else {
            Seq::empty()
        },
        _ => Seq::empty(),
    }
}

/// The rows that a turn returns.
spec fn rows_returned(turn: MergeTurn) -> Seq<Seq<Option<CellView>>> {
    match turn {
        MergeTurn::Emit(b) => result_rows(batch_view(b)),
        _ => Seq::empty(),
    }
}

/// One turn more makes a run longer, and adds what it supplies and returns.
proof fn lemma_longer(
    ops: Seq<MergeSourcesOperator>,
    turns: Seq<MergeTurn>,
    turn: MergeTurn,
    after: MergeSourcesOperator,
)
    requires
        is_run(ops, turns),
        turned(ops.last(), turn, after),
    ensures
        is_run(ops.push(after), turns.push(turn)),
        forall|i: int|
            #[trigger] given(
                ops[0],
                turns.push(turn),
                turns.push(turn).len() as int,
                i,
            ) == given(
                ops[0],
                turns,
                turns.len() as int,
                i,
            ) + rows_given(ops[0], turn, i),
        returned(turns.push(turn), turns.push(turn).len() as int) == returned(turns, turns.len() as int)
            + rows_returned(turn),
{
    let all = turns.push(turn);
    let more = ops.push(after);
    assert forall|n: int| 0 <= n < all.len() implies turned(
        more[n],
        #[trigger] all[n],
        more[n + 1],
    ) by {
        if n < turns.len() {
            assert(turned(ops[n], turns[n], ops[n + 1]));
        }
    }
    let n = turns.len() as int;
    assert(all[n] == turn);
    assert forall|i: int|
        #[trigger] given(ops[0], all, all.len() as int, i) == given(ops[0], turns, n, i)
            + rows_given(ops[0], turn, i) by {
        lemma_given_same(ops[0], turns, all, n, i);
        assert(given(ops[0], turns, n, i) + Seq::empty() =~= given(ops[0], turns, n, i));
    }
    lemma_returned_same(turns, all, n);
    assert(returned(turns, n) + Seq::empty() =~= returned(turns, n));
}

proof fn lemma_given_same(
    op: MergeSourcesOperator,
    turns: Seq<MergeTurn>,
    all: Seq<MergeTurn>,
    n: int,
    i: int,
)
    requires
        n <= turns.len() <= all.len(),
        forall|k: int| 0 <= k < turns.len() ==> all[k] == #[trigger] turns[k],
    ensures
        given(op, all, n, i) == given(op, turns, n, i),
    decreases n,
{
    if n > 0 {
        lemma_given_same(op, turns, all, n - 1, i);
        assert(all[n - 1] == turns[n - 1]);
    }
}

proof fn lemma_returned_same(turns: Seq<MergeTurn>, all: Seq<MergeTurn>, n: int)
    requires
        n <= turns.len() <= all.len(),
        forall|k: int| 0 <= k < turns.len() ==> all[k] == #[trigger] turns[k],
    ensures
        returned(all, n) == returned(turns, n),
    decreases n,
{
    if n > 0 {
        lemma_returned_same(turns, all, n - 1);
        assert(all[n - 1] == turns[n - 1]);
    }
}

/// A turn that supplies nothing leaves what was supplied as it was.
proof fn lemma_nothing_given(op: MergeSourcesOperator, turns: Seq<MergeTurn>, all: Seq<MergeTurn>)
    requires
        all.len() == turns.len() + 1,
        forall|i: int|
            #[trigger] given(op, all, all.len() as int, i) == given(
                op,
                turns,
                turns.len() as int,
                i,
            ) + rows_given(op, all.last(), i),
        !(all.last() is Supply),
    ensures
        streams(op, all) == streams(op, turns),
        forall|i: int|
            #[trigger] given(op, all, all.len() as int, i) == given(
                op,
                turns,
                turns.len() as int,
                i,
            ),
{
    assert forall|i: int|
        #[trigger] given(op, all, all.len() as int, i) == given(
        op,
        turns,
        turns.len() as int,
        i,
    ) by {
        let n = turns.len() as int;
        assert(given(op, all, all.len() as int, i) =~= given(op, turns, n, i));
    }
    assert(streams(op, all) =~= streams(op, turns));
}

proof fn lemma_needing(subs: Seq<SubSource>, i: int)
    requires
        0 <= i,
    ensures
        first_needing(subs, i) matches Some(k) ==> i <= k < subs.len() && subs[k].needs_batch(),
    decreases subs.len() - i,
{
    if i < subs.len() {
        lemma_needing(subs, i + 1);
    }
}

/// The picked rows of batches that the result can show can be put together.
proof fn lemma_fit_collectable(op: MergeSourcesOperator)
    requires
        op.wf(),
        op.picks@.len() > 0,
        all_held_fit(op, op.subs@),
    ensures
        op.collectable(),
{
    let first = op.picks@[0];
    assert(op.subs@[first.0 as int].wf());
    assert(held_fits(op, first.0 as int, op.subs@[first.0 as int].current));
    assert forall|o: int| 0 <= o < op.output_fields@.len() implies #[trigger] typed(&op, o) by {
        if op.source_table_id_col != Some(o as usize) {
            assert forall|i: int| 0 <= i < op.subs@.len() implies #[trigger] column_typed(
                &op,
                i,
                o,
            ) by {
                assert(held_fits(op, i, op.subs@[i].current));
                let _ = op.descriptors@[i].reverse_col_map@[o];
            }
        }
    }
    lemma_all_typed(&op, 0);
    assert forall|o: int| 0 <= o < op.output_fields@.len() implies (
    #[trigger] op.output_fields@[o]).nullable || no_nulls(shown_cells(&op, o)) by {
        if !op.output_fields@[o].nullable {
            let cells = shown_cells(&op, o);
            assert forall|p: int| 0 <= p < cells.len() implies (#[trigger] cells[p]) is Some by {
                let pick = op.picks@[p];
                let i = pick.0 as int;
                let s = op.subs@[i];
                assert(pick_views(op.picks@)[p] == (i, pick.1 as int));
                assert(s.wf());
                assert(held_fits(op, i, s.current));
                let b = batch_view(s.current->0.batch);
                assert(row_fits(op, source_rows(op, i, b)[pick.1 as int].cells));
            }
        }
    }
}

/// What is collected has columns of the types of the result, and is null only where it
/// may be.
proof fn lemma_collected_fits(op: MergeSourcesOperator, after: MergeSourcesOperator, b: Batch)
    requires
        op.wf(),
        op.collectable(),
        collected(op, after, b),
    ensures
        rows_fit(op, result_rows(batch_view(b))),
        forall|i: int|
            0 <= i < op.subs@.len() ==> ((#[trigger] op.subs@[i]).current matches Some(c)
                ==> types_fit(op, i, batch_view(c.batch))),
{
    let rows = result_rows(batch_view(b));
    assert forall|t: int| 0 <= t < rows.len() implies row_fits(op, #[trigger] rows[t]) by {
        assert forall|o: int| 0 <= o < op.output_fields@.len() implies (
        #[trigger] op.output_fields@[o]).nullable || rows[t][o] is Some by {
            let column = batch_view(b).columns[o];
            assert(column.cells == shown_cells(&op, o));
            assert(rows[t][o] == column.cells[t]);
        }
    }
    assert forall|i: int| 0 <= i < op.subs@.len() implies ((
    #[trigger] op.subs@[i]).current matches Some(c) ==> types_fit(op, i, batch_view(c.batch))) by {
        if op.subs@[i].current is Some {
            let c = op.subs@[i].current->0;
            assert forall|o: int|
                0 <= o < op.output_fields@.len() && op.source_table_id_col != Some(
                    o as usize,
                ) implies ((#[trigger] op.descriptors@[i].reverse_col_map@[o]) matches Some(d)
                ==> batch_view(c.batch).columns[d as int].data_type
                == op.output_fields@[o].data_type) by {
                lemma_none_mistyped(&op, 0, o);
                assert(column_typed(&op, i, o));
            }
        }
    }
}

/// Where no row is picked, no position moves.
proof fn lemma_settled_still(
    tables: Seq<Seq<RowKey>>,
    done: Seq<bool>,
    pos: Seq<int>,
    picks: Seq<(int, int)>,
    target: nat,
)
    ensures
        settled(tables, done, pos, picks, target).1.len() >= picks.len(),
        settled(tables, done, pos, picks, target).1.len() == picks.len() ==> settled(
            tables,
            done,
            pos,
            picks,
            target,
        ).0 == pos,
    decreases target - picks.len(),
{
    if picks.len() < target && all_ready(tables, done, pos) {
        if let Some(k) = least(tables, pos, tables.len() as int) {
            lemma_settled_still(
                tables,
                done,
                pos.update(k, pos[k] + 1),
                picks.push((k, pos[k])),
                target,
            );
        }
    }
}

/// Whether the batches of all sources that are not at hand are of the types of the result.
spec fn all_types_seen(
    op: MergeSourcesOperator,
    lists: Seq<Seq<Batch>>,
    used: Seq<int>,
    subs: Seq<SubSource>,
) -> bool {
    forall|i: int|
        0 <= i < subs.len() ==> types_seen(op, i, lists[i], used[i], #[trigger] subs[i])
}

/// Picking rows takes no batch away.
proof fn lemma_step_hand(
    op: MergeSourcesOperator,
    lists: Seq<Seq<Batch>>,
    used: Seq<int>,
    before: MergeSourcesOperator,
    after: MergeSourcesOperator,
    action: MergeAction,
)
    requires
        stepped(before, after, action),
        all_types_seen(op, lists, used, before.subs@),
        rows_at_hand(before.subs@, before.picks@.len() > 0),
    ensures
        all_types_seen(op, lists, used, after.subs@),
        rows_at_hand(after.subs@, after.picks@.len() > 0),
{
    lemma_settled_still(
        before.tables(),
        before.done(),
        before.pos(),
        pick_views(before.picks@),
        before.batch_target_rows as nat,
    );
    assert(pick_views(before.picks@).len() == before.picks@.len());
    assert(pick_views(after.picks@).len() == after.picks@.len());
    assert forall|i: int| 0 <= i < after.subs@.len() implies {
        let s = #[trigger] after.subs@[i];
        &&& types_seen(op, i, lists[i], used[i], s)
        &&& s.current matches Some(c) ==> c.rows().len() > 0
        &&& s.pending matches Some(c) ==> c.rows().len() > 0
        &&& s.current is Some && after.picks@.len() == 0 ==> s.cursor < s.rows().len()
    } by {
        let s = before.subs@[i];
        assert(after.subs@[i] == (SubSource { cursor: after.subs@[i].cursor, ..s }));
        assert(types_seen(op, i, lists[i], used[i], s));
        if after.picks@.len() == 0 {
            assert(after.pos()[i] == before.pos()[i]);
        }
    }
}

/// What is collected shows that the batches at hand are of the types of the result.
proof fn lemma_emit_hand(
    op: MergeSourcesOperator,
    lists: Seq<Seq<Batch>>,
    used: Seq<int>,
    before: MergeSourcesOperator,
    after: MergeSourcesOperator,
    b: Batch,
)
    requires
        before.wf(),
        before.same_setup(&op),
        before.collectable(),
        collected(before, after, b),
        all_types_seen(op, lists, used, before.subs@),
        rows_at_hand(before.subs@, before.picks@.len() > 0),
    ensures
        all_types_seen(op, lists, used, after.subs@),
        rows_at_hand(after.subs@, after.picks@.len() > 0),
        rows_fit(op, result_rows(batch_view(b))),
{
    lemma_collected_fits(before, after, b);
    assert(rows_fit(op, result_rows(batch_view(b)))) by {
        let rows = result_rows(batch_view(b));
        assert forall|t: int| 0 <= t < rows.len() implies row_fits(op, #[trigger] rows[t]) by {
            assert(row_fits(before, rows[t]));
        }
    }
    assert forall|i: int| 0 <= i < after.subs@.len() implies {
        let s = #[trigger] after.subs@[i];
        &&& types_seen(op, i, lists[i], used[i], s)
        &&& s.current matches Some(c) ==> c.rows().len() > 0
        &&& s.pending matches Some(c) ==> c.rows().len() > 0
        &&& s.current is Some ==> s.cursor < s.rows().len()
    } by {
        let s = before.subs@[i];
        assert(after.subs@[i] == renewed(s));
        assert(types_seen(op, i, lists[i], used[i], s));
        if s.current is Some {
            assert(types_fit(before, i, batch_view(s.current->0.batch)));
            assert(types_fit(op, i, batch_view(s.current->0.batch)));
        }
    }
}

/// A supplied batch is at hand, and takes no other away.
proof fn lemma_supply_hand(
    op: MergeSourcesOperator,
    lists: Seq<Seq<Batch>>,
    used: Seq<int>,
    before: MergeSourcesOperator,
    after: MergeSourcesOperator,
    i: int,
    batch: Option<Batch>,
)
    requires
        before.wf(),
        before.can_supply(i, batch),
        supplied(before, after, i, batch),
        all_types_seen(op, lists, used, before.subs@),
        rows_at_hand(before.subs@, before.picks@.len() > 0),
        0 <= i < used.len() == before.subs@.len(),
        batch matches Some(b) ==> b == lists[i][used[i]],
    ensures
        all_types_seen(
            op,
            lists,
            if batch is Some {
                used.update(i, used[i] + 1)
            } else {
                used
            },
            after.subs@,
        ),
        rows_at_hand(after.subs@, after.picks@.len() > 0),
{
    let later = if batch is Some {
        used.update(i, used[i] + 1)
    } else {
        used
    };
    assert forall|j: int| 0 <= j < after.subs@.len() implies {
        let s = #[trigger] after.subs@[j];
        &&& types_seen(op, j, lists[j], later[j], s)
        &&& s.current matches Some(c) ==> c.rows().len() > 0
        &&& s.pending matches Some(c) ==> c.rows().len() > 0
        &&& s.current is Some && after.picks@.len() == 0 ==> s.cursor < s.rows().len()
    } by {
        let s = before.subs@[j];
        assert(s.wf());
        assert(after.subs@[j].wf());
        assert(types_seen(op, j, lists[j], used[j], s));
        if j != i {
            assert(after.subs@[j] == s);
        }
    }
}

/// The rows of a batch stand in those of its source.
proof fn lemma_list_rows(
    op: MergeSourcesOperator,
    i: int,
    list: Seq<Batch>,
    k: int,
    n: int,
    r: int,
)
    requires
        0 <= k < n <= list.len(),
        0 <= r < batch_view(list[k]).rows,
    ensures
        list_rows(op, i, list, k).len() + r < list_rows(op, i, list, n).len(),
        list_rows(op, i, list, n)[list_rows(op, i, list, k).len() + r] == source_rows(
            op,
            i,
            batch_view(list[k]),
        )[r],
    decreases n,
{
    if k < n - 1 {
        lemma_list_rows(op, i, list, k, n - 1, r);
    }
}

/// Where every row is returned and the rows of the result are null only where they may be,
/// and the columns are of the types of the result, the result could show every batch.
proof fn lemma_all_fit(
    op: MergeSourcesOperator,
    lists: Seq<Seq<Batch>>,
    rows: Seq<Seq<Option<CellView>>>,
)
    requires
        is_merge(all_rows(op, lists), rows),
        rows_fit(op, rows),
        forall|i: int, k: int|
            0 <= i < lists.len() && 0 <= k < lists[i].len() && batch_view(
                #[trigger] lists[i][k],
            ).rows > 0 ==> types_fit(op, i, batch_view(lists[i][k])),
    ensures
        all_fit(op, lists),
{
    let all = all_rows(op, lists);
    let keys = stream_keys(all);
    assert forall|i: int, k: int|
        0 <= i < lists.len() && 0 <= k < lists[i].len() && batch_view(
            #[trigger] lists[i][k],
        ).rows > 0 implies fits_result(op, i, batch_view(lists[i][k])) by {
        let b = batch_view(lists[i][k]);
        assert forall|r: int| 0 <= r < b.rows implies row_fits(
            op,
            (#[trigger] source_rows(op, i, b)[r]).cells,
        ) by {
            lemma_list_rows(op, i, lists[i], k, lists[i].len() as int, r);
            let x = list_rows(op, i, lists[i], k).len() + r;
            assert(is_among(all, keys, rows, i, x));
            let t = choose|t: int|
                0 <= t < rows.len() && #[trigger] comes(keys, t, i, x) && rows[t]
                    == all[i][x].cells;
            assert(row_fits(op, rows[t]));
        }
    }
}

/// The same operator set up the same way can show the same batches.
proof fn lemma_fit_same(op: MergeSourcesOperator, at: MergeSourcesOperator)
    requires
        at.same_setup(&op),
        all_held_fit(op, at.subs@),
    ensures
        all_held_fit(at, at.subs@),
{
    assert forall|i: int| 0 <= i < at.subs@.len() implies held_fits(
        at,
        i,
        (#[trigger] at.subs@[i]).current,
    ) && held_fits(at, i, at.subs@[i].pending) by {
        assert(held_fits(op, i, at.subs@[i].current));
        assert(forall|b: BatchView| fits_result(op, i, b) ==> #[trigger] fits_result(at, i, b));
    }
}

impl MergeSourcesOperator {
    /// Everything that the merge of sources returns, where the batches of each source are
    /// at hand. Fails where the result cannot show a batch.
    pub fn drain(&mut self, sources: Vec<VecDeque<Batch>>) -> (r: Result<Vec<Batch>, BqliteError>)
        requires
            old(self).wf(),
            old(self).picks@.len() == 0,
            forall|i: int|
                0 <= i < old(self).subs@.len() ==> #[trigger] old(self).subs@[i] == fresh_source(),
            sources@.len() == old(self).subs@.len(),
            all_taken(*old(self), batch_lists(sources@)),
        ensures
            r is Ok <==> all_fit(*old(self), batch_lists(sources@)),
            match r {
                Ok(out) => {
                    let all = all_rows(*old(self), batch_lists(sources@));
                    let rows = rows_out(out@, out@.len() as int);
                    &&& final(self).exhausted
                    &&& final(self).same_setup(old(self))
                    &&& is_merge(all, rows)
                    &&& (forall|i: int|
                        0 <= i < all.len() ==> in_order(#[trigger] stream_keys(all)[i]))
                        ==> is_merged_in_order(all, rows.len() as int)
                    &&& merges(*old(self), batch_lists(sources@), rows)
                    &&& forall|k: int|
                        0 <= k < out@.len() ==> is_result(
                            *old(self),
                            batch_view(#[trigger] out@[k]),
                        )
                },
                Err(e) => e is Execution,
            },
    {
        let ghost lists = batch_lists(sources@);
        let ghost op = *self;
        let ghost mut used: Seq<int> = Seq::new(lists.len(), |i: int| 0int);
        let ghost mut ops: Seq<MergeSourcesOperator> = seq![*self];
        let ghost mut turns: Seq<MergeTurn> = Seq::empty();
        let mut left: Vec<VecDeque<Batch>> = sources;
        let mut out: Vec<Batch> = Vec::new();
        proof {
            assert forall|i: int| 0 <= i < left@.len() implies #[trigger] left@[i]@ == lists[i].skip(
                used[i],
            ) by {
                assert(lists[i].skip(0) =~= lists[i]);
            }
            lemma_room(ops, turns);
        }
        loop
            invariant
                op == *old(self),
                is_run(ops, turns),
                ops[0] == op,
                ops.last() == *self,
                self.wf(),
                self.same_setup(&op),
                self.subs@.len() == lists.len(),
                lists.len() == op.subs@.len() == used.len() == left@.len(),
                lists == batch_lists(sources@),
                all_taken(op, lists),
                forall|i: int|
                    0 <= i < left@.len() ==> #[trigger] left@[i]@ == lists[i].skip(used[i]),
                forall|i: int|
                    0 <= i < used.len() ==> 0 <= #[trigger] used[i] <= lists[i].len() && given(
                        op,
                        turns,
                        turns.len() as int,
                        i,
                    ) == list_rows(op, i, lists[i], used[i]),
                forall|i: int|
                    0 <= i < self.subs@.len() && (#[trigger] self.subs@[i]).exhausted ==> used[i]
                        == lists[i].len(),
                returned(turns, turns.len() as int) == rows_out(out@, out@.len() as int),
                forall|k: int|
                    0 <= k < out@.len() ==> is_result(op, batch_view(#[trigger] out@[k])),
                all_fit(op, lists) ==> all_held_fit(op, self.subs@),
                all_types_seen(op, lists, used, self.subs@),
                rows_at_hand(self.subs@, self.picks@.len() > 0),
                rows_fit(op, rows_out(out@, out@.len() as int)),
            decreases
                    asks_left(lists, used, self.subs@, lists.len() as int),
                    supplied_rows(op, turns) - returned(turns, turns.len() as int).len(),
        {
            let ghost before = *self;
            let ghost old_turns = turns;
            let action: MergeAction = self.step();
            proof {
                lemma_longer(ops, turns, MergeTurn::Step(action), *self);
                turns = turns.push(MergeTurn::Step(action));
                ops = ops.push(*self);
                lemma_nothing_given(op, old_turns, turns);
                lemma_step_hand(op, lists, used, before, *self, action);
                lemma_asks_same(lists, used, before.subs@, self.subs@, lists.len() as int);
                lemma_needing(self.subs@, 0);
                lemma_asks_bound(lists, used, self.subs@, lists.len() as int);
            }
            match action {
                MergeAction::Done => {
                    proof {
                        lemma_ended(before, *self);
                        theorem_drained(ops, turns);
                        assert forall|i: int, k: int|
                            0 <= i < lists.len() && 0 <= k < lists[i].len() && batch_view(
                                #[trigger] lists[i][k],
                            ).rows > 0 implies types_fit(op, i, batch_view(lists[i][k])) by {
                            assert(types_seen(op, i, lists[i], used[i], self.subs@[i]));
                            assert(self.subs@[i].exhausted);
                            assert(self.subs@[i].wf());
                        }
                        assert(streams(op, turns) =~= all_rows(op, lists)) by {
                            assert forall|i: int| 0 <= i < lists.len() implies streams(op, turns)[i]
                                == all_rows(op, lists)[i] by {
                                assert(self.subs@[i].exhausted);
                                let _ = used[i];
                            }
                        }
                    }
                    proof {
                        lemma_all_fit(op, lists, rows_out(out@, out@.len() as int));
                        assert(op.output_fields.fields.len() == op.output_fields@.len());
                        theorem_merges(op, lists, rows_out(out@, out@.len() as int));
                    }
                    return Ok(out);
                },
                MergeAction::Emit => {
                    let ghost picked = *self;
                    proof {
                        if all_fit(op, lists) {
                            lemma_fit_same(op, *self);
                            lemma_fit_collectable(*self);
                        }
                    }
                    match self.emit() {
                        Ok(b) => {
                            proof {
                                let ready = turns;
                                lemma_longer(ops, turns, MergeTurn::Emit(b), *self);
                                turns = turns.push(MergeTurn::Emit(b));
                                ops = ops.push(*self);
                                lemma_nothing_given(op, ready, turns);
                                lemma_emit_hand(op, lists, used, picked, *self, b);
                                lemma_asks_same(
                                    lists,
                                    used,
                                    picked.subs@,
                                    self.subs@,
                                    lists.len() as int,
                                );
                                lemma_room(ops, turns);
                            }
                            let ghost had = out@;
                            out.push(b);
                            assert(rows_out(out@, had.len() as int) == rows_out(
                                had,
                                had.len() as int,
                            )) by {
                                lemma_rows_out_same(had, out@, had.len() as int);
                            }
                        },
                        Err(e) => {
                            return Err(e);
                        },
                    }
                },
                MergeAction::Pull(i) => {
                    let ghost asked = *self;
                    let ghost i0 = i as int;
                    proof {
                        assert(self.subs.len() == self.subs@.len());
                        assert(first_needing(self.subs@, 0) == Some(i0));
                        assert(left@[i0]@ == lists[i0].skip(used[i0]));
                    }
                    let next: Option<Batch> = left[i].pop_front();
                    proof {
                        if next is Some {
                            assert(next->0 == lists[i0][used[i0]]);
                            assert(self.descriptors == op.descriptors);
                            assert(is_taken(op, i0, batch_view(lists[i0][used[i0]])));
                        }
                    }
                    self.supply(i, next);
                    proof {
                        let before_used = used;
                        lemma_supply_hand(op, lists, used, asked, *self, i0, next);
                        lemma_longer(ops, turns, MergeTurn::Supply(i, next), *self);
                        turns = turns.push(MergeTurn::Supply(i, next));
                        ops = ops.push(*self);
                        if next is Some {
                            used = used.update(i0, used[i0] + 1);
                        }
                        lemma_asked(
                            lists,
                            before_used,
                            asked.subs@,
                            used,
                            self.subs@,
                            i0,
                            lists.len() as int,
                        );
                        lemma_asks_bound(lists, used, self.subs@, lists.len() as int);
                        assert forall|j: int| 0 <= j < left@.len() implies #[trigger] left@[j]@
                            == lists[j].skip(used[j]) by {
                            if j == i0 {
                                assert(left@[j]@ =~= lists[j].skip(used[j]));
                            }
                        }
                    }
                },
            }
        }
    }
}

proof fn lemma_rows_out_same(a: Seq<Batch>, b: Seq<Batch>, n: int)
    requires
        n <= a.len() <= b.len(),
        forall|k: int| 0 <= k < a.len() ==> b[k] == #[trigger] a[k],
    ensures
        rows_out(b, n) == rows_out(a, n),
    decreases n,
{
    if n > 0 {
        lemma_rows_out_same(a, b, n - 1);
        assert(b[n - 1] == a[n - 1]);
    }
}

} // verus!
