//! What a merge of sources has returned once it has come to its end.
//!
//! The driver of a merge takes turns: it lets the operator pick rows, supplies what it
//! pulled from a source, or collects a batch. The theorem at the end is about all the
//! turns of a drained merge together, however the sources divide their rows into
//! batches.

use vstd::prelude::*;

use super::merge_order::{RowKey, has_head, in_order, least, lemma_least, lemma_left_after,
    lemma_none_left, lemma_passed_merged, merged_row, row_le, rows_left, taken_n,
    theorem_merge_once, theorem_merge_sorted, within};
use super::merge_sources::{LoadedBatch, MergeAction, MergeSourcesOperator, SubSource, SubSourceDesc,
    all_ready, collected, first_needing, fresh_source, in_streams, pick_views, renewed, settled,
    shown_cell, shown_cells, stepped, supplied, theorem_picks_in_merge_order, windows};
use crate::columnar::{Batch, BatchView, CellView, batch_view};

verus! {

/// A row of a source: what orders it, and what the result shows of it.
pub struct SourceRow {
    pub key: RowKey,
    pub cells: Seq<Option<CellView>>,
}

/// A turn of the driver.
pub enum MergeTurn {
    /// Rows were picked, and this is what has to be done next.
    Step(MergeAction),
    /// This was pulled from this source.
    Supply(usize, Option<Batch>),
    /// The picked rows were collected in this batch.
    Emit(Batch),
}

/// Whether an operator comes of another by a turn.
pub open spec fn turned(
    before: MergeSourcesOperator,
    turn: MergeTurn,
    after: MergeSourcesOperator,
) -> bool {
    &&& before.wf()
    &&& match turn {
        MergeTurn::Step(action) => stepped(before, after, action),
        MergeTurn::Supply(i, batch) => before.can_supply(i as int, batch) && supplied(
            before,
            after,
            i as int,
            batch,
        ),
        MergeTurn::Emit(b) => before.picks@.len() > 0 && collected(before, after, b),
    }
}

/// Whether operators come of each other by turns, one after another, beginning with one
/// of which nothing was picked.
pub open spec fn is_run(ops: Seq<MergeSourcesOperator>, turns: Seq<MergeTurn>) -> bool {
    &&& ops.len() == turns.len() + 1
    &&& ops[0].wf()
    &&& ops[0].picks@.len() == 0
    &&& forall|i: int| 0 <= i < ops[0].subs@.len() ==> #[trigger] ops[0].subs@[i] == fresh_source()
    &&& forall|n: int| 0 <= n < turns.len() ==> turned(ops[n], #[trigger] turns[n], ops[n + 1])
}

/// What column `o` of the result shows of row `r` of a batch of source `i`.
pub open spec fn source_cell(
    desc: SubSourceDesc,
    id_col: Option<usize>,
    i: int,
    b: BatchView,
    r: int,
    o: int,
) -> Option<CellView> {
    if id_col == Some(o as usize) {
        Some(CellView::Int(i as i64))
    } else {
        match desc.reverse_col_map@[o] {
            Some(c) => b.columns[c as int].cells[r],
            None => None,
        }
    }
}

/// The rows of a batch of source `i`, in a result of `width` columns.
pub open spec fn batch_rows(
    desc: SubSourceDesc,
    id_col: Option<usize>,
    width: nat,
    i: int,
    b: BatchView,
) -> Seq<SourceRow> {
    Seq::new(
        b.rows,
        |r: int|
            SourceRow {
                key: desc.row_keys(b)[r],
                cells: Seq::new(width, |o: int| source_cell(desc, id_col, i, b, r, o)),
            },
    )
}

/// The rows of a batch of source `i`.
pub open spec fn source_rows(op: MergeSourcesOperator, i: int, b: BatchView) -> Seq<SourceRow> {
    batch_rows(op.descriptors@[i], op.source_table_id_col, op.output_fields@.len(), i, b)
}

/// The rows of source `i` that were supplied in the first `n` turns.
pub open spec fn given(op: MergeSourcesOperator, turns: Seq<MergeTurn>, n: int, i: int) -> Seq<
    SourceRow,
>
    decreases n,
{
    if n <= 0 {
        Seq::empty()
    } else {
        match turns[n - 1] {
            MergeTurn::Supply(j, Some(b)) => if j == i {
                given(op, turns, n - 1, i) + source_rows(op, i, batch_view(b))
            } else {
                given(op, turns, n - 1, i)
            },
            _ => given(op, turns, n - 1, i),
        }
    }
}

/// The rows of each source that were supplied.
pub open spec fn streams(op: MergeSourcesOperator, turns: Seq<MergeTurn>) -> Seq<Seq<SourceRow>> {
    Seq::new(op.subs@.len(), |i: int| given(op, turns, turns.len() as int, i))
}

/// The rows of a batch of the result.
pub open spec fn result_rows(b: BatchView) -> Seq<Seq<Option<CellView>>> {
    Seq::new(b.rows, |r: int| Seq::new(b.columns.len(), |o: int| b.columns[o].cells[r]))
}

/// The rows that were returned in the first `n` turns.
pub open spec fn returned(turns: Seq<MergeTurn>, n: int) -> Seq<Seq<Option<CellView>>>
    decreases n,
{
    if n <= 0 {
        Seq::empty()
    } else {
        match turns[n - 1] {
            MergeTurn::Emit(b) => returned(turns, n - 1) + result_rows(batch_view(b)),
            _ => returned(turns, n - 1),
        }
    }
}

/// What orders some rows.
pub open spec fn keys_of(rows: Seq<SourceRow>) -> Seq<RowKey> {
    Seq::new(rows.len(), |r: int| rows[r].key)
}

/// What orders the rows of some sources.
pub open spec fn stream_keys(all: Seq<Seq<SourceRow>>) -> Seq<Seq<RowKey>> {
    Seq::new(all.len(), |i: int| keys_of(all[i]))
}

/// The beginning of `n` streams.
pub open spec fn beginning(n: nat) -> Seq<int> {
    Seq::new(n, |i: int| 0int)
}

/// What orders the rows of the batch that waits.
spec fn pending_rows(s: SubSource) -> Seq<RowKey> {
    match s.pending {
        Some(c) => c.rows(),
        None => Seq::empty(),
    }
}

/// Where the current batch of a source begins, when `n` rows were supplied.
spec fn offset(s: SubSource, n: int) -> int {
    n - s.rows().len() - pending_rows(s).len()
}

/// Whether a batch is a part of the rows of source `i`.
spec fn is_part(
    op: MergeSourcesOperator,
    i: int,
    all: Seq<SourceRow>,
    from: int,
    to: int,
    c: LoadedBatch,
) -> bool {
    &&& source_rows(op, i, batch_view(c.batch)) == all.subrange(from, to)
    &&& c.rows() == keys_of(all.subrange(from, to))
}

/// Whether what is at hand of source `i` is the end of the first `n` of its rows.
spec fn at_hand(
    op: MergeSourcesOperator,
    i: int,
    all: Seq<SourceRow>,
    n: int,
    s: SubSource,
) -> bool {
    let off = offset(s, n);
    &&& 0 <= off
    &&& n <= all.len()
    &&& s.exhausted ==> n == all.len()
    &&& s.current matches Some(c) ==> is_part(op, i, all, off, off + s.rows().len(), c)
    &&& s.pending matches Some(c) ==> is_part(op, i, all, off + s.rows().len(), n, c)
}

/// Where the current batch of each source begins.
spec fn offsets(
    op: MergeSourcesOperator,
    turns: Seq<MergeTurn>,
    n: int,
    at: MergeSourcesOperator,
) -> Seq<int> {
    Seq::new(
        at.subs@.len(),
        |i: int| offset(at.subs@[i], given(op, turns, n, i).len() as int),
    )
}

/// Whether the row that comes `t`-th is the row `x` of source `k`.
pub open spec fn comes(keys: Seq<Seq<RowKey>>, t: int, k: int, x: int) -> bool {
    merged_row(keys, beginning(keys.len()), t as nat) == Some((k, x))
}

/// Whether a row that was returned is the one that comes `t`-th.
pub open spec fn is_returned(
    all: Seq<Seq<SourceRow>>,
    keys: Seq<Seq<RowKey>>,
    t: int,
    row: Seq<Option<CellView>>,
) -> bool {
    match merged_row(keys, beginning(keys.len()), t as nat) {
        Some((k, x)) => 0 <= k < all.len() && 0 <= x < all[k].len() && row == all[k][x].cells,
        None => false,
    }
}

/// Whether the rows returned and picked are the first of the merged rows.
spec fn in_step(
    op: MergeSourcesOperator,
    turns: Seq<MergeTurn>,
    n: int,
    at: MergeSourcesOperator,
) -> bool {
    let all = streams(op, turns);
    let keys = stream_keys(all);
    let off = offsets(op, turns, n, at);
    let out = returned(turns, n);
    &&& at.wf()
    &&& at.same_setup(&op)
    &&& at.subs@.len() == op.subs@.len()
    &&& forall|i: int|
        0 <= i < at.subs@.len() ==> at_hand(
            op,
            i,
            all[i],
            given(op, turns, n, i).len() as int,
            #[trigger] at.subs@[i],
        )
    &&& in_streams(off, at.pos()) == taken_n(
        keys,
        beginning(keys.len()),
        (out.len() + at.picks@.len()) as nat,
    )
    &&& forall|t: int| 0 <= t < out.len() ==> is_returned(all, keys, t, #[trigger] out[t])
    &&& forall|p: int|
        0 <= p < at.picks@.len() ==> comes(
            keys,
            out.len() + p,
            (#[trigger] at.picks@[p]).0 as int,
            off[at.picks@[p].0 as int] + at.picks@[p].1,
        )
}

proof fn lemma_given_grows(
    op: MergeSourcesOperator,
    turns: Seq<MergeTurn>,
    i: int,
    m: int,
    n: int,
)
    requires
        0 <= m <= n,
    ensures
        given(op, turns, m, i).len() <= given(op, turns, n, i).len(),
        given(op, turns, n, i).take(given(op, turns, m, i).len() as int) == given(op, turns, m, i),
    decreases n - m,
{
    let a = given(op, turns, m, i);
    if m < n {
        lemma_given_grows(op, turns, i, m, n - 1);
        let b = given(op, turns, n - 1, i);
        let c = given(op, turns, n, i);
        assert(c.take(a.len() as int) =~= b.take(a.len() as int));
    } else {
        assert(a.take(a.len() as int) =~= a);
    }
}

proof fn lemma_setup_kept(ops: Seq<MergeSourcesOperator>, turns: Seq<MergeTurn>, n: int)
    requires
        is_run(ops, turns),
        0 <= n <= turns.len(),
    ensures
        ops[n].wf(),
        ops[n].same_setup(&ops[0]),
        ops[n].subs@.len() == ops[0].subs@.len(),
    decreases n,
{
    if n > 0 {
        lemma_setup_kept(ops, turns, n - 1);
        assert(turned(ops[n - 1], turns[n - 1], ops[n]));
    }
}

/// A source without more batches stays so, and nothing is supplied of it.
proof fn lemma_exhausted_stays(
    ops: Seq<MergeSourcesOperator>,
    turns: Seq<MergeTurn>,
    i: int,
    m: int,
    n: int,
)
    requires
        is_run(ops, turns),
        0 <= m <= n <= turns.len(),
        0 <= i < ops[0].subs@.len(),
        ops[m].subs@[i].exhausted,
    ensures
        ops[n].subs@[i].exhausted,
        given(ops[0], turns, n, i) == given(ops[0], turns, m, i),
    decreases n - m,
{
    if m < n {
        lemma_exhausted_stays(ops, turns, i, m, n - 1);
        lemma_setup_kept(ops, turns, n - 1);
        lemma_setup_kept(ops, turns, n);
        assert(turned(ops[n - 1], turns[n - 1], ops[n]));
        let a = ops[n - 1].subs@[i];
        let b = ops[n].subs@[i];
        match turns[n - 1] {
            MergeTurn::Step(_) => {
                assert(b == (SubSource { cursor: b.cursor, ..a }));
            },
            MergeTurn::Supply(j, batch) => {
                assert(!ops[n - 1].subs@[j as int].exhausted);
            },
            MergeTurn::Emit(_) => {
                assert(b == renewed(a));
            },
        }
    }
}

/// Taking rows twice is taking them at once.
proof fn lemma_taken_twice(keys: Seq<Seq<RowKey>>, pos: Seq<int>, a: nat, b: nat)
    ensures
        taken_n(keys, taken_n(keys, pos, a), b) == taken_n(keys, pos, a + b),
    decreases b,
{
    if b > 0 {
        lemma_taken_twice(keys, pos, a, (b - 1) as nat);
    }
}

/// After picking, a batch is full, a source may have more rows, or no row is left.
proof fn lemma_settled(
    tables: Seq<Seq<RowKey>>,
    done: Seq<bool>,
    pos: Seq<int>,
    picks: Seq<(int, int)>,
    target: nat,
)
    ensures
        ({
            let (p, q) = settled(tables, done, pos, picks, target);
            ||| q.len() >= target
            ||| !all_ready(tables, done, p)
            ||| least(tables, p, tables.len() as int) is None
        }),
    decreases target - picks.len(),
{
    if picks.len() < target && all_ready(tables, done, pos) {
        if let Some(k) = least(tables, pos, tables.len() as int) {
            lemma_settled(
                tables,
                done,
                pos.update(k, pos[k] + 1),
                picks.push((k, pos[k])),
                target,
            );
        }
    }
}

/// What is at hand is a window of each stream.
proof fn lemma_windows(
    op: MergeSourcesOperator,
    turns: Seq<MergeTurn>,
    n: int,
    at: MergeSourcesOperator,
)
    requires
        in_step(op, turns, n, at),
    ensures
        windows(
            stream_keys(streams(op, turns)),
            offsets(op, turns, n, at),
            at.tables(),
            at.done(),
            at.pos(),
        ),
{
    let all = streams(op, turns);
    let keys = stream_keys(all);
    let off = offsets(op, turns, n, at);
    assert forall|i: int| 0 <= i < keys.len() implies {
        &&& 0 <= #[trigger] off[i]
        &&& off[i] + at.tables()[i].len() <= keys[i].len()
        &&& at.tables()[i] == keys[i].subrange(off[i], off[i] + at.tables()[i].len())
        &&& at.done()[i] ==> off[i] + at.tables()[i].len() == keys[i].len()
        &&& 0 <= at.pos()[i] <= at.tables()[i].len()
    } by {
        let s = at.subs@[i];
        assert(s.wf());
        assert(at_hand(op, i, all[i], given(op, turns, n, i).len() as int, s));
        assert(at.tables()[i] =~= keys[i].subrange(off[i], off[i] + at.tables()[i].len()));
    }
}

proof fn lemma_step_in_step(
    op: MergeSourcesOperator,
    turns: Seq<MergeTurn>,
    n: int,
    before: MergeSourcesOperator,
    after: MergeSourcesOperator,
    action: MergeAction,
)
    requires
        0 <= n < turns.len(),
        turns[n] == MergeTurn::Step(action),
        in_step(op, turns, n, before),
        stepped(before, after, action),
    ensures
        in_step(op, turns, n + 1, after),
{
    let all = streams(op, turns);
    let keys = stream_keys(all);
    let off = offsets(op, turns, n, before);
    let out = returned(turns, n);
    let old_picks = pick_views(before.picks@);
    let new_picks = pick_views(after.picks@);
    let zero = beginning(keys.len());
    let total = (out.len() + before.picks@.len()) as nat;
    lemma_windows(op, turns, n, before);
    theorem_picks_in_merge_order(
        keys,
        off,
        before.tables(),
        before.done(),
        before.pos(),
        old_picks,
        before.batch_target_rows as nat,
    );
    assert forall|i: int| 0 <= i < after.subs@.len() implies at_hand(
        op,
        i,
        all[i],
        given(op, turns, n + 1, i).len() as int,
        #[trigger] after.subs@[i],
    ) by {
        let s = before.subs@[i];
        assert(after.subs@[i] == (SubSource { cursor: after.subs@[i].cursor, ..s }));
        assert(at_hand(op, i, all[i], given(op, turns, n, i).len() as int, s));
    }
    assert(offsets(op, turns, n + 1, after) =~= off) by {
        assert forall|i: int| 0 <= i < after.subs@.len() implies offsets(
            op,
            turns,
            n + 1,
            after,
        )[i] == off[i] by {
            let s = before.subs@[i];
            assert(after.subs@[i] == (SubSource { cursor: after.subs@[i].cursor, ..s }));
        }
    }
    lemma_taken_twice(keys, zero, total, (new_picks.len() - old_picks.len()) as nat);
    assert forall|p: int| 0 <= p < after.picks@.len() implies comes(
        keys,
        out.len() + p,
        (#[trigger] after.picks@[p]).0 as int,
        off[after.picks@[p].0 as int] + after.picks@[p].1,
    ) by {
        let q = new_picks[p];
        if p < old_picks.len() {
            assert(q == new_picks.take(old_picks.len() as int)[p]);
            assert(q == old_picks[p]);
            let _ = before.picks@[p];
        } else {
            lemma_taken_twice(keys, zero, total, (p - old_picks.len()) as nat);
        }
    }
}

/// Supplying a source leaves the others as they are.
proof fn lemma_supply_in_step(
    ops: Seq<MergeSourcesOperator>,
    turns: Seq<MergeTurn>,
    n: int,
    j: usize,
    batch: Option<Batch>,
)
    requires
        is_run(ops, turns),
        0 <= n < turns.len(),
        turns[n] == MergeTurn::Supply(j, batch),
        in_step(ops[0], turns, n, ops[n]),
    ensures
        in_step(ops[0], turns, n + 1, ops[n + 1]),
{
    let op = ops[0];
    let before = ops[n];
    let after = ops[n + 1];
    let all = streams(op, turns);
    let keys = stream_keys(all);
    let off = offsets(op, turns, n, before);
    let off2 = offsets(op, turns, n + 1, after);
    assert(turned(before, turns[n], after));
    assert forall|i: int| 0 <= i < after.subs@.len() implies {
        &&& at_hand(
            op,
            i,
            all[i],
            given(op, turns, n + 1, i).len() as int,
            #[trigger] after.subs@[i],
        )
        &&& off2[i] + after.pos()[i] == off[i] + before.pos()[i]
        &&& before.picks@.len() > 0 ==> off2[i] == off[i]
    } by {
        let s = before.subs@[i];
        let m = given(op, turns, n, i).len() as int;
        assert(s.wf());
        assert(at_hand(op, i, all[i], m, s));
        lemma_given_grows(op, turns, i, n, turns.len() as int);
        lemma_given_grows(op, turns, i, n + 1, turns.len() as int);
        if i == j {
            match batch {
                None => {
                    lemma_exhausted_stays(ops, turns, i, n + 1, turns.len() as int);
                },
                Some(b) => {
                    let rows = source_rows(op, i, batch_view(b));
                    let k = given(op, turns, n + 1, i).len() as int;
                    if batch_view(b).rows == 0 {
                        assert(rows =~= Seq::empty());
                    } else {
                        assert(given(op, turns, n + 1, i) =~= given(op, turns, n, i) + rows);
                        let so_far = given(op, turns, n + 1, i);
                        assert(so_far == all[i].take(k));
                        assert forall|r: int| 0 <= r < rows.len() implies rows[r]
                            == all[i].subrange(m, k)[r] by {
                            assert(so_far[m + r] == rows[r]);
                            assert(so_far[m + r] == all[i].take(k)[m + r]);
                        }
                        assert(rows =~= all[i].subrange(m, k));
                        assert(before.descriptors@[i].row_keys(batch_view(b)) =~= keys_of(rows));
                        assert(after.subs@[i].wf());
                    }
                },
            }
        } else {
            assert(after.subs@[i] == s);
        }
    }
    assert(in_streams(off2, after.pos()) =~= in_streams(off, before.pos()));
    assert forall|p: int| 0 <= p < after.picks@.len() implies comes(
        keys,
        returned(turns, n + 1).len() + p,
        (#[trigger] after.picks@[p]).0 as int,
        off2[after.picks@[p].0 as int] + after.picks@[p].1,
    ) by {
        let _ = before.picks@[p];
        let _ = after.subs@[after.picks@[p].0 as int];
    }
}

proof fn lemma_emit_in_step(
    op: MergeSourcesOperator,
    turns: Seq<MergeTurn>,
    n: int,
    before: MergeSourcesOperator,
    after: MergeSourcesOperator,
    b: Batch,
)
    requires
        0 <= n < turns.len(),
        turns[n] == MergeTurn::Emit(b),
        in_step(op, turns, n, before),
        collected(before, after, b),
    ensures
        in_step(op, turns, n + 1, after),
{
    let all = streams(op, turns);
    let keys = stream_keys(all);
    let off = offsets(op, turns, n, before);
    let off2 = offsets(op, turns, n + 1, after);
    let out = returned(turns, n);
    let more = result_rows(batch_view(b));
    let out2 = returned(turns, n + 1);
    assert(out2 == out + more);
    assert forall|i: int| 0 <= i < after.subs@.len() implies {
        &&& at_hand(
            op,
            i,
            all[i],
            given(op, turns, n + 1, i).len() as int,
            #[trigger] after.subs@[i],
        )
        &&& off2[i] + after.pos()[i] == off[i] + before.pos()[i]
    } by {
        let s = before.subs@[i];
        assert(s.wf());
        assert(at_hand(op, i, all[i], given(op, turns, n, i).len() as int, s));
        assert(after.subs@[i] == renewed(s));
    }
    assert(in_streams(off2, after.pos()) =~= in_streams(off, before.pos()));
    assert forall|t: int| 0 <= t < out2.len() implies is_returned(
        all,
        keys,
        t,
        #[trigger] out2[t],
    ) by {
        if t < out.len() {
            assert(out2[t] == out[t]);
        } else {
            let p = t - out.len();
            let (k, x) = pick_views(before.picks@)[p];
            let pick = before.picks@[p];
            let s = before.subs@[k];
            assert(s.wf());
            assert(at_hand(op, k, all[k], given(op, turns, n, k).len() as int, s));
            assert(comes(keys, out.len() + p, k, off[k] + x));
            let c = s.current->0;
            let rows = source_rows(op, k, batch_view(c.batch));
            assert(rows[x] == all[k][off[k] + x]);
            assert(more[p] =~= rows[x].cells) by {
                assert forall|o: int| 0 <= o < before.output_fields@.len() implies more[p][o]
                    == rows[x].cells[o] by {
                    assert(batch_view(b).columns[o].cells == shown_cells(&before, o));
                    assert(shown_cells(&before, o)[p] == shown_cell(&before, o, (k, x)));
                }
            }
        }
    }
}

proof fn lemma_run(ops: Seq<MergeSourcesOperator>, turns: Seq<MergeTurn>, n: int)
    requires
        is_run(ops, turns),
        0 <= n <= turns.len(),
    ensures
        in_step(ops[0], turns, n, ops[n]),
    decreases n,
{
    let op = ops[0];
    if n == 0 {
        let all = streams(op, turns);
        let keys = stream_keys(all);
        assert forall|i: int| 0 <= i < op.subs@.len() implies at_hand(
            op,
            i,
            all[i],
            given(op, turns, 0, i).len() as int,
            #[trigger] op.subs@[i],
        ) by {
            assert(op.subs@[i] == fresh_source());
        }
        assert(in_streams(offsets(op, turns, 0, op), op.pos()) =~= beginning(keys.len())) by {
            assert forall|i: int| 0 <= i < op.subs@.len() implies in_streams(
                offsets(op, turns, 0, op),
                op.pos(),
            )[i] == 0 by {
                assert(op.subs@[i] == fresh_source());
            }
        }
    } else {
        lemma_run(ops, turns, n - 1);
        let before = ops[n - 1];
        let after = ops[n];
        assert(turned(before, turns[n - 1], after));
        match turns[n - 1] {
            MergeTurn::Step(action) => {
                lemma_step_in_step(op, turns, n - 1, before, after, action);
            },
            MergeTurn::Supply(j, batch) => {
                lemma_supply_in_step(ops, turns, n - 1, j, batch);
            },
            MergeTurn::Emit(b) => {
                lemma_emit_in_step(op, turns, n - 1, before, after, b);
            },
        }
    }
}

/// No more rows are returned and picked than were supplied.
pub proof fn lemma_room(ops: Seq<MergeSourcesOperator>, turns: Seq<MergeTurn>)
    requires
        is_run(ops, turns),
    ensures
        returned(turns, turns.len() as int).len() + ops.last().picks@.len() <= supplied_rows(
            ops[0],
            turns,
        ),
{
    let n = turns.len() as int;
    let all = streams(ops[0], turns);
    let keys = stream_keys(all);
    let zero = beginning(keys.len());
    let out = returned(turns, n);
    let at = ops[n];
    let total = (out.len() + at.picks@.len()) as nat;
    lemma_run(ops, turns, n);
    assert(within(keys, zero));
    assert forall|t: nat| t < total implies (#[trigger] merged_row(keys, zero, t)) is Some by {
        if t < out.len() {
            assert(is_returned(all, keys, t as int, out[t as int]));
        } else {
            let p = at.picks@[t - out.len()];
            let off = offsets(ops[0], turns, n, at);
            assert(comes(keys, t as int, p.0 as int, off[p.0 as int] + p.1));
        }
    }
    lemma_left_after(keys, zero, total);
    lemma_none_left(keys, taken_n(keys, zero, total), keys.len() as int);
}

/// The number of rows that were supplied.
pub open spec fn supplied_rows(op: MergeSourcesOperator, turns: Seq<MergeTurn>) -> int {
    let keys = stream_keys(streams(op, turns));
    rows_left(keys, beginning(keys.len()), keys.len() as int)
}

/// Whether row `x` of source `k` is among the rows that were returned, in its place.
pub open spec fn is_among(
    all: Seq<Seq<SourceRow>>,
    keys: Seq<Seq<RowKey>>,
    out: Seq<Seq<Option<CellView>>>,
    k: int,
    x: int,
) -> bool {
    exists|t: int|
        0 <= t < out.len() && #[trigger] comes(keys, t, k, x) && out[t] == all[k][x].cells
}

/// Whether rows are those of all sources, merged: the `t`-th is the one that comes
/// `t`-th, every row is there, and the rows of one source are in its order, so that none
/// is there twice.
pub open spec fn is_merge(all: Seq<Seq<SourceRow>>, out: Seq<Seq<Option<CellView>>>) -> bool {
    let keys = stream_keys(all);
    &&& out.len() == rows_left(keys, beginning(keys.len()), keys.len() as int)
    &&& forall|t: int| 0 <= t < out.len() ==> is_returned(all, keys, t, #[trigger] out[t])
    &&& forall|k: int, x: int|
        0 <= k < all.len() && 0 <= x < all[k].len() ==> #[trigger] is_among(
            all,
            keys,
            out,
            k,
            x,
        )
    &&& forall|a: int, b: int, k: int, x: int, y: int|
        0 <= a < b < out.len() && #[trigger] comes(keys, a, k, x) && #[trigger] comes(
            keys,
            b,
            k,
            y,
        ) ==> x < y
}

/// Whether the merged rows are in order: by entity, then by time, then by source.
pub open spec fn is_merged_in_order(all: Seq<Seq<SourceRow>>, rows: int) -> bool {
    let keys = stream_keys(all);
    forall|a: int, b: int, i: int, x: int, j: int, y: int|
        0 <= a < b < rows && #[trigger] comes(keys, a, i, x) && #[trigger] comes(keys, b, j, y)
            ==> row_le(keys[i][x], i, keys[j][y], j)
}

/// A merge that has come to its end has returned every row of its sources once, with the
/// cells that the result shows of it and the number of its source, in merge order: by
/// entity, then by time, then by source, if the rows of each source are in order. No
/// batch was empty or had more rows than a batch may have. From then on there is no
/// batch to be asked for.
pub proof fn theorem_drained(ops: Seq<MergeSourcesOperator>, turns: Seq<MergeTurn>)
    requires
        is_run(ops, turns),
        turns.len() > 0,
        turns.last() == MergeTurn::Step(MergeAction::Done),
    ensures
        is_merge(streams(ops[0], turns), returned(turns, turns.len() as int)),
        (forall|i: int|
            0 <= i < ops[0].subs@.len() ==> in_order(
                #[trigger] stream_keys(streams(ops[0], turns))[i],
            )) ==> is_merged_in_order(
            streams(ops[0], turns),
            returned(turns, turns.len() as int).len() as int,
        ),
        forall|n: int|
            0 <= n < turns.len() ==> (#[trigger] turns[n] matches MergeTurn::Emit(b) ==> 0
                < batch_view(b).rows <= ops[0].batch_target_rows),
        ops.last().exhausted,
{
    let n = turns.len() as int;
    let op = ops[0];
    let at = ops[n];
    let before = ops[n - 1];
    let all = streams(op, turns);
    let keys = stream_keys(all);
    let zero = beginning(keys.len());
    let out = returned(turns, n);
    let total = out.len();
    lemma_run(ops, turns, n);
    lemma_run(ops, turns, n - 1);
    assert(turned(before, turns[n - 1], at));
    lemma_ended(before, at);
    lemma_windows(op, turns, n, at);
    let off = offsets(op, turns, n, at);
    let last = taken_n(keys, zero, total);
    assert(pick_views(at.picks@).len() == 0);
    assert(last == in_streams(off, at.pos()));
    assert(within(keys, zero));
    assert forall|t: nat| t < total implies (#[trigger] merged_row(keys, zero, t)) is Some by {
        assert(is_returned(all, keys, t as int, out[t as int]));
    }
    lemma_left_after(keys, zero, total);
    assert forall|i: int| 0 <= i < keys.len() implies last[i] == keys[i].len() by {
        let s = at.subs@[i];
        assert(at.done()[i]);
        assert(0 <= off[i]);
    }
    assert(rows_left(keys, last, keys.len() as int) == 0) by {
        lemma_nothing_left(keys, last, keys.len() as int);
    }
    assert forall|k: int, x: int|
        0 <= k < all.len() && 0 <= x < all[k].len() implies #[trigger] is_among(
        all,
        keys,
        out,
        k,
        x,
    ) by {
        assert(last[k] == keys[k].len());
        lemma_passed_merged(keys, zero, total, k, x);
        let t = choose|t: nat| t < total && #[trigger] merged_row(keys, zero, t) == Some((k, x));
        assert(is_returned(all, keys, t as int, out[t as int]));
        assert(comes(keys, t as int, k, x));
    }
    assert forall|a: int, b: int, k: int, x: int, y: int|
        0 <= a < b < out.len() && #[trigger] comes(keys, a, k, x) && #[trigger] comes(
            keys,
            b,
            k,
            y,
        ) implies x < y by {
        theorem_merge_once(keys, zero, a as nat, b as nat);
    }
    if forall|i: int| 0 <= i < op.subs@.len() ==> in_order(#[trigger] keys[i]) {
        assert forall|a: int, b: int, i: int, x: int, j: int, y: int|
            0 <= a < b < total && #[trigger] comes(keys, a, i, x) && #[trigger] comes(
                keys,
                b,
                j,
                y,
            ) implies row_le(keys[i][x], i, keys[j][y], j) by {
            theorem_merge_sorted(keys, zero, a as nat, b as nat);
        }
    }
    assert forall|m: int| 0 <= m < n implies (#[trigger] turns[m] matches MergeTurn::Emit(b) ==> 0
        < batch_view(b).rows <= op.batch_target_rows) by {
        lemma_setup_kept(ops, turns, m);
        assert(turned(ops[m], turns[m], ops[m + 1]));
    }
}

/// At the end every source has no more batches and no row left.
pub proof fn lemma_ended(before: MergeSourcesOperator, at: MergeSourcesOperator)
    requires
        stepped(before, at, MergeAction::Done),
    ensures
        at.picks@.len() == 0,
        forall|i: int|
            0 <= i < at.subs@.len() ==> (#[trigger] at.subs@[i]).exhausted && at.subs@[i].cursor
                == at.subs@[i].rows().len(),
{
    lemma_none_needing(at.subs@, 0);
    lemma_settled(
        before.tables(),
        before.done(),
        before.pos(),
        pick_views(before.picks@),
        before.batch_target_rows as nat,
    );
    assert(pick_views(at.picks@).len() == at.picks@.len());
    assert(at.tables() =~= before.tables()) by {
        assert forall|i: int| 0 <= i < at.subs@.len() implies at.tables()[i]
            == before.tables()[i] by {
            assert(at.subs@[i] == (SubSource { cursor: at.subs@[i].cursor, ..before.subs@[i] }));
        }
    }
    assert(at.done() =~= before.done()) by {
        assert forall|i: int| 0 <= i < at.subs@.len() implies at.done()[i] == before.done()[i] by {
            assert(at.subs@[i] == (SubSource { cursor: at.subs@[i].cursor, ..before.subs@[i] }));
        }
    }
    assert forall|i: int| 0 <= i < at.tables().len() implies #[trigger] at.done()[i] || has_head(
        at.tables(),
        at.pos(),
        i,
    ) by {
        assert(!at.subs@[i].needs_batch());
        assert(at.subs@[i].pending is None);
    }
    lemma_least(at.tables(), at.pos(), at.tables().len() as int);
    assert forall|i: int| 0 <= i < at.subs@.len() implies (#[trigger] at.subs@[i]).exhausted
        && at.subs@[i].cursor == at.subs@[i].rows().len() by {
        assert(at.subs@[i].wf());
        assert(at.done()[i] || has_head(at.tables(), at.pos(), i));
        assert(!has_head(at.tables(), at.pos(), i));
    }
}

proof fn lemma_none_needing(subs: Seq<SubSource>, i: int)
    requires
        0 <= i,
        first_needing(subs, i) is None,
    ensures
        forall|k: int| i <= k < subs.len() ==> !(#[trigger] subs[k]).needs_batch(),
    decreases subs.len() - i,
{
    if i < subs.len() {
        lemma_none_needing(subs, i + 1);
    }
}

proof fn lemma_nothing_left(keys: Seq<Seq<RowKey>>, pos: Seq<int>, n: int)
    requires
        n <= keys.len(),
        forall|i: int| 0 <= i < keys.len() ==> #[trigger] pos[i] == keys[i].len(),
    ensures
        rows_left(keys, pos, n) == 0,
    decreases n,
{
    if n > 0 {
        lemma_nothing_left(keys, pos, n - 1);
        let _ = pos[n - 1];
    }
}

} // verus!
