//! What the rows of a merge are, stated on the cells of the sources.
//!
//! Entities are ordered by number, or by the code points of their ids, and numbers come
//! before texts. The rows of a merge are ordered by entity, then by time, then by source,
//! so that all rows of one entity stand together.

use vstd::prelude::*;

use super::merge_drain::{all_rows, list_rows};
use super::merge_laws::{MergeTurn, SourceRow, batch_rows, beginning, comes, given, is_among,
    is_merge, is_merged_in_order, is_returned, is_run, returned, source_cell, stream_keys, streams,
    theorem_drained};
use super::merge_order::{KeyView, RowKey, in_order, key_le, merged_row, row_le};
use super::merge_sources::{MergeAction, MergeSourcesOperator, SubSourceDesc, cell_key,
    combined_name, opt_int, shown_in, shows_column};
use crate::columnar::{Batch, BatchView, CellView, batch_view};
use crate::schema::{ColumnView, column_position, is_system_name, lemma_column_position};
use crate::text::{is_lexicographic, lemma_text_le_antisymmetric, theorem_text_order};

verus! {

/// A row of a batch.
pub struct RowAt {
    pub batch: BatchView,
    pub row: int,
}

/// The rows of the first `n` of some batches.
pub open spec fn rows_at(list: Seq<Batch>, n: int) -> Seq<RowAt>
    decreases n,
{
    if n <= 0 {
        Seq::empty()
    } else {
        rows_at(list, n - 1) + Seq::new(
            batch_view(list[n - 1]).rows,
            |r: int| RowAt { batch: batch_view(list[n - 1]), row: r },
        )
    }
}

/// The rows of each source.
pub open spec fn source_tables(lists: Seq<Seq<Batch>>) -> Seq<Seq<RowAt>> {
    Seq::new(lists.len(), |k: int| rows_at(lists[k], lists[k].len() as int))
}

/// The entity of a row of source `k`.
pub open spec fn entity_at(op: MergeSourcesOperator, k: int, at: RowAt) -> Option<CellView> {
    at.batch.columns[op.descriptors@[k].entity_key_col as int].cells[at.row]
}

/// The time of a row of source `k`.
pub open spec fn time_at(op: MergeSourcesOperator, k: int, at: RowAt) -> i64 {
    at.batch.columns[op.descriptors@[k].ts_col as int].raw[at.row]
}

/// What column `o` of the result shows of a row of source `k`: the number of the source
/// in the column for it, else the column of the source that is shown there, if one is.
pub open spec fn cell_at(op: MergeSourcesOperator, k: int, at: RowAt, o: int) -> Option<CellView> {
    if op.source_table_id_col is Some && op.source_table_id_col->0 == o {
        Some(CellView::Int(k as i64))
    } else if op.descriptors@[k].reverse_col_map@[o] is Some {
        at.batch.columns[op.descriptors@[k].reverse_col_map@[o]->0 as int].cells[at.row]
    } else {
        None
    }
}

/// Whether a cell tells an entity, by a number or a text.
pub open spec fn is_id(cell: Option<CellView>) -> bool {
    cell matches Some(v) && (v is Int || v is Str)
}

/// Whether an entity comes before another, or is the same: the smaller number, a number
/// before a text, or the text that is first by code points.
pub open spec fn is_not_after(a: Option<CellView>, b: Option<CellView>) -> bool {
    match (a, b) {
        (Some(CellView::Int(x)), Some(CellView::Int(y))) => x <= y,
        (Some(CellView::Int(_)), Some(CellView::Str(_))) => true,
        (Some(CellView::Str(x)), Some(CellView::Str(y))) => is_lexicographic(x, y),
        _ => false,
    }
}

/// Whether a row of source `i` goes before a row of source `j`, or is as early: by
/// entity, then by time, then by source.
pub open spec fn goes_before(
    op: MergeSourcesOperator,
    i: int,
    a: RowAt,
    j: int,
    b: RowAt,
) -> bool {
    if entity_at(op, i, a) == entity_at(op, j, b) {
        time_at(op, i, a) < time_at(op, j, b) || (time_at(op, i, a) == time_at(op, j, b) && i <= j)
    } else {
        is_not_after(entity_at(op, i, a), entity_at(op, j, b))
    }
}

/// Whether the rows of every source are in order, and each tells its entity.
pub open spec fn are_sorted(op: MergeSourcesOperator, tables: Seq<Seq<RowAt>>) -> bool {
    &&& forall|k: int, x: int|
        0 <= k < tables.len() && 0 <= x < tables[k].len() ==> is_id(
            entity_at(op, k, #[trigger] tables[k][x]),
        )
    &&& forall|k: int, x: int, y: int|
        0 <= k < tables.len() && 0 <= x <= y < tables[k].len() ==> goes_before(
            op,
            k,
            #[trigger] tables[k][x],
            k,
            #[trigger] tables[k][y],
        )
}

/// Whether a place is one of a row.
pub open spec fn is_place(tables: Seq<Seq<RowAt>>, p: (int, int)) -> bool {
    0 <= p.0 < tables.len() && 0 <= p.1 < tables[p.0].len()
}

/// Whether the rows of a result are the rows at some places of the sources: every row
/// has a place, no two the same, and the rows of one source keep their order.
pub open spec fn is_arranged(
    op: MergeSourcesOperator,
    tables: Seq<Seq<RowAt>>,
    out: Seq<Seq<Option<CellView>>>,
    places: Seq<(int, int)>,
) -> bool {
    &&& places.len() == out.len()
    &&& forall|t: int|
        0 <= t < places.len() ==> {
            &&& is_place(tables, #[trigger] places[t])
            &&& out[t].len() == op.output_fields@.len()
            &&& forall|o: int|
                0 <= o < out[t].len() ==> #[trigger] out[t][o] == cell_at(
                    op,
                    places[t].0,
                    tables[places[t].0][places[t].1],
                    o,
                )
        }
    &&& forall|p: (int, int)| #[trigger] is_place(tables, p) ==> places.contains(p)
    &&& forall|a: int, b: int|
        0 <= a < b < places.len() && (#[trigger] places[a]).0 == (#[trigger] places[b]).0
            ==> places[a].1 < places[b].1
}

/// Whether the rows at some places are in order.
pub open spec fn in_sequence(
    op: MergeSourcesOperator,
    tables: Seq<Seq<RowAt>>,
    places: Seq<(int, int)>,
) -> bool {
    forall|a: int, b: int|
        0 <= a < b < places.len() ==> goes_before(
            op,
            (#[trigger] places[a]).0,
            tables[places[a].0][places[a].1],
            (#[trigger] places[b]).0,
            tables[places[b].0][places[b].1],
        )
}

/// Whether rows are those of the sources, each once, in order if the sources are.
pub open spec fn merges(
    op: MergeSourcesOperator,
    lists: Seq<Seq<Batch>>,
    out: Seq<Seq<Option<CellView>>>,
) -> bool {
    let tables = source_tables(lists);
    exists|places: Seq<(int, int)>| #[trigger]
        is_arranged(op, tables, out, places) && (are_sorted(op, tables) ==> in_sequence(
            op,
            tables,
            places,
        ))
}

/// A row of a source as the merge sees it.
spec fn seen(op: MergeSourcesOperator, k: int, at: RowAt) -> SourceRow {
    SourceRow {
        key: RowKey { key: cell_key(entity_at(op, k, at)), ts: time_at(op, k, at) },
        cells: Seq::new(op.output_fields@.len(), |o: int| cell_at(op, k, at, o)),
    }
}

proof fn lemma_seen(op: MergeSourcesOperator, k: int, list: Seq<Batch>, n: int)
    requires
        0 <= n <= list.len(),
        op.source_table_id_col matches Some(c) ==> c < op.output_fields@.len() <= usize::MAX,
        op.output_fields@.len() <= usize::MAX,
    ensures
        list_rows(op, k, list, n).len() == rows_at(list, n).len(),
        forall|x: int|
            0 <= x < rows_at(list, n).len() ==> #[trigger] list_rows(op, k, list, n)[x] == seen(
                op,
                k,
                rows_at(list, n)[x],
            ),
    decreases n,
{
    if n > 0 {
        lemma_seen(op, k, list, n - 1);
        let b = batch_view(list[n - 1]);
        let before = rows_at(list, n - 1);
        let rows = rows_at(list, n);
        let all = list_rows(op, k, list, n);
        let last = batch_rows(
            op.descriptors@[k],
            op.source_table_id_col,
            op.output_fields@.len(),
            k,
            b,
        );
        assert forall|x: int| 0 <= x < rows.len() implies #[trigger] all[x] == seen(op, k, rows[x]) by {
            if x >= before.len() {
                let r = x - before.len();
                assert(all[x] == last[r]);
                assert(rows[x] == (RowAt { batch: b, row: r }));
                let row = seen(op, k, rows[x]);
                assert forall|o: int| 0 <= o < op.output_fields@.len() implies last[r].cells[o]
                    == row.cells[o] by {
                    assert(source_cell(
                        op.descriptors@[k],
                        op.source_table_id_col,
                        k,
                        b,
                        r,
                        o,
                    ) == cell_at(op, k, rows[x], o));
                }
                assert(last[r].cells =~= row.cells);
            }
        }
    }
}

proof fn lemma_same_entity(a: Option<CellView>, b: Option<CellView>)
    requires
        is_id(a),
        is_id(b),
    ensures
        cell_key(a) == cell_key(b) <==> a == b,
        key_le(cell_key(a), cell_key(b)) <==> is_not_after(a, b),
{
    match (a, b) {
        (Some(CellView::Str(x)), Some(CellView::Str(y))) => {
            theorem_text_order(x, y);
        },
        _ => {},
    }
}

proof fn lemma_row_order(op: MergeSourcesOperator, i: int, a: RowAt, j: int, b: RowAt)
    requires
        is_id(entity_at(op, i, a)),
        is_id(entity_at(op, j, b)),
    ensures
        row_le(seen(op, i, a).key, i, seen(op, j, b).key, j) <==> goes_before(op, i, a, j, b),
{
    lemma_same_entity(entity_at(op, i, a), entity_at(op, j, b));
}

/// The rows of a merge are the rows of its sources, each once, with the cells that the
/// result shows of it and the number of its source. They are ordered by entity, then by
/// time, then by source, if the rows of each source are.
pub proof fn theorem_merges(
    op: MergeSourcesOperator,
    lists: Seq<Seq<Batch>>,
    out: Seq<Seq<Option<CellView>>>,
)
    requires
        op.source_table_id_col matches Some(c) ==> c < op.output_fields@.len(),
        op.output_fields@.len() <= usize::MAX,
        is_merge(all_rows(op, lists), out),
        (forall|i: int|
            0 <= i < lists.len() ==> in_order(#[trigger] stream_keys(all_rows(op, lists))[i]))
            ==> is_merged_in_order(all_rows(op, lists), out.len() as int),
    ensures
        merges(op, lists, out),
{
    let all = all_rows(op, lists);
    let keys = stream_keys(all);
    let tables = source_tables(lists);
    let zero = beginning(keys.len());
    let places = Seq::new(out.len(), |t: int| merged_row(keys, zero, t as nat)->0);
    assert forall|k: int| 0 <= k < lists.len() implies all[k].len() == (#[trigger] tables[k]).len() by {
        lemma_seen(op, k, lists[k], lists[k].len() as int);
    }
    assert forall|k: int, x: int|
        0 <= k < lists.len() && 0 <= x < tables[k].len() implies #[trigger] all[k][x] == seen(
        op,
        k,
        tables[k][x],
    ) by {
        lemma_seen(op, k, lists[k], lists[k].len() as int);
    }
    assert forall|t: int| 0 <= t < places.len() implies {
        &&& is_place(tables, #[trigger] places[t])
        &&& comes(keys, t, places[t].0, places[t].1)
        &&& out[t] == seen(op, places[t].0, tables[places[t].0][places[t].1]).cells
    } by {
        assert(is_returned(all, keys, t, out[t]));
        let (k, x) = places[t];
        let _ = tables[k];
        assert(all[k][x] == seen(op, k, tables[k][x]));
    }
    assert forall|p: (int, int)| #[trigger] is_place(tables, p) implies places.contains(p) by {
        let _ = tables[p.0];
        assert(is_among(all, keys, out, p.0, p.1));
        let t = choose|t: int|
            0 <= t < out.len() && #[trigger] comes(keys, t, p.0, p.1) && out[t]
                == all[p.0][p.1].cells;
        assert(places[t] == p);
    }
    assert forall|a: int, b: int|
        0 <= a < b < places.len() && (#[trigger] places[a]).0 == (#[trigger] places[b]).0 implies {
        places[a].1 < places[b].1
    } by {
        assert(comes(keys, a, places[a].0, places[a].1));
        assert(comes(keys, b, places[a].0, places[b].1));
    }
    assert(is_arranged(op, tables, out, places));
    if are_sorted(op, tables) {
        assert forall|i: int| 0 <= i < lists.len() implies in_order(#[trigger] keys[i]) by {
            let _ = tables[i];
            assert forall|x: int, y: int| 0 <= x <= y < keys[i].len() implies row_le(
                #[trigger] keys[i][x],
                0,
                #[trigger] keys[i][y],
                0,
            ) by {
                assert(all[i][x] == seen(op, i, tables[i][x]));
                assert(all[i][y] == seen(op, i, tables[i][y]));
                lemma_row_order(op, i, tables[i][x], i, tables[i][y]);
                assert(goes_before(op, i, tables[i][x], i, tables[i][y]));
            }
        }
        assert forall|a: int, b: int| 0 <= a < b < places.len() implies goes_before(
            op,
            (#[trigger] places[a]).0,
            tables[places[a].0][places[a].1],
            (#[trigger] places[b]).0,
            tables[places[b].0][places[b].1],
        ) by {
            let (i, x) = places[a];
            let (j, y) = places[b];
            assert(is_place(tables, places[a]) && is_place(tables, places[b]));
            assert(comes(keys, a, i, x));
            assert(comes(keys, b, j, y));
            let _ = tables[i];
            let _ = tables[j];
            assert(row_le(keys[i][x], i, keys[j][y], j));
            assert(all[i][x] == seen(op, i, tables[i][x]));
            assert(all[j][y] == seen(op, j, tables[j][y]));
            lemma_row_order(op, i, tables[i][x], j, tables[j][y]);
        }
        assert(in_sequence(op, tables, places));
    }
}

/// In a sequence of rows in order all rows of one entity stand together.
pub proof fn theorem_entities_together(
    op: MergeSourcesOperator,
    tables: Seq<Seq<RowAt>>,
    places: Seq<(int, int)>,
    a: int,
    b: int,
    c: int,
)
    requires
        in_sequence(op, tables, places),
        0 <= a < b < c < places.len(),
        entity_at(op, places[a].0, tables[places[a].0][places[a].1]) == entity_at(
            op,
            places[c].0,
            tables[places[c].0][places[c].1],
        ),
    ensures
        entity_at(op, places[b].0, tables[places[b].0][places[b].1]) == entity_at(
            op,
            places[a].0,
            tables[places[a].0][places[a].1],
        ),
{
    let x = entity_at(op, places[a].0, tables[places[a].0][places[a].1]);
    let y = entity_at(op, places[b].0, tables[places[b].0][places[b].1]);
    assert(x == y || is_not_after(x, y));
    assert(x == y || is_not_after(y, x));
    match (x, y) {
        (Some(CellView::Str(s)), Some(CellView::Str(t))) => {
            if s != t {
                theorem_text_order(s, t);
                theorem_text_order(t, s);
                lemma_text_le_antisymmetric(s, t);
            }
        },
        _ => {},
    }
}

/// Numbers are ordered by size, texts by their code points, and numbers come before
/// texts. Rows are ordered by entity, then by time, then by stream.
pub proof fn theorem_key_order(a: RowKey, i: int, b: RowKey, j: int)
    ensures
        (a.key is Text && b.key is Text) ==> (key_le(a.key, b.key)
            <==> is_lexicographic(a.key->Text_0, b.key->Text_0)),
        (a.key is Int && b.key is Int) ==> (key_le(a.key, b.key) <==> a.key->Int_0 <= b.key->Int_0),
        (a.key is Int && b.key is Text) ==> key_le(a.key, b.key),
        (a.key is Text && b.key is Int) ==> !key_le(a.key, b.key),
        a.key != b.key ==> (row_le(a, i, b, j) <==> key_le(a.key, b.key)),
        a.key == b.key && a.ts != b.ts ==> (row_le(a, i, b, j) <==> a.ts < b.ts),
        a.key == b.key && a.ts == b.ts ==> (row_le(a, i, b, j) <==> i <= j),
{
    match (a.key, b.key) {
        (KeyView::Text(x), KeyView::Text(y)) => {
            theorem_text_order(x, y);
        },
        _ => {},
    }
}

/// The batches that were supplied of source `i` in the first `n` turns.
pub open spec fn batches_of(turns: Seq<MergeTurn>, n: int, i: int) -> Seq<Batch>
    decreases n,
{
    if n <= 0 {
        Seq::empty()
    } else {
        let before = batches_of(turns, n - 1, i);
        match turns[n - 1] {
            MergeTurn::Supply(j, Some(b)) => if j == i {
                before.push(b)
            } else {
                before
            },
            _ => before,
        }
    }
}

/// The batches that were supplied of each source.
pub open spec fn all_batches(sources: nat, turns: Seq<MergeTurn>) -> Seq<Seq<Batch>> {
    Seq::new(sources, |i: int| batches_of(turns, turns.len() as int, i))
}

proof fn lemma_list_prefix(op: MergeSourcesOperator, k: int, a: Seq<Batch>, b: Seq<Batch>, n: int)
    requires
        0 <= n <= a.len() <= b.len(),
        forall|i: int| 0 <= i < a.len() ==> a[i] == #[trigger] b[i],
    ensures
        list_rows(op, k, a, n) == list_rows(op, k, b, n),
    decreases n,
{
    if n > 0 {
        lemma_list_prefix(op, k, a, b, n - 1);
        assert(a[n - 1] == b[n - 1]);
    }
}

proof fn lemma_given(op: MergeSourcesOperator, turns: Seq<MergeTurn>, n: int, i: int)
    requires
        0 <= n <= turns.len(),
    ensures
        given(op, turns, n, i) == list_rows(
            op,
            i,
            batches_of(turns, n, i),
            batches_of(turns, n, i).len() as int,
        ),
    decreases n,
{
    if n > 0 {
        lemma_given(op, turns, n - 1, i);
        let before = batches_of(turns, n - 1, i);
        let after = batches_of(turns, n, i);
        lemma_list_prefix(op, i, before, after, before.len() as int);
    }
}

/// A merge that has come to its end has returned the rows of all batches that were
/// supplied, each once, with the cells that the result shows of it and the number of its
/// source, ordered by entity, then by time, then by source, if the rows of each source
/// are.
pub proof fn theorem_all_returned(ops: Seq<MergeSourcesOperator>, turns: Seq<MergeTurn>)
    requires
        is_run(ops, turns),
        turns.len() > 0,
        turns.last() == MergeTurn::Step(MergeAction::Done),
    ensures
        merges(
            ops[0],
            all_batches(ops[0].subs@.len(), turns),
            returned(turns, turns.len() as int),
        ),
{
    let op = ops[0];
    let lists = all_batches(op.subs@.len(), turns);
    theorem_drained(ops, turns);
    assert(streams(op, turns) =~= all_rows(op, lists)) by {
        assert forall|i: int| 0 <= i < lists.len() implies streams(op, turns)[i] == all_rows(
            op,
            lists,
        )[i] by {
            lemma_given(op, turns, turns.len() as int, i);
        }
    }
    assert(op.output_fields.fields.len() == op.output_fields@.len());
    theorem_merges(op, lists, returned(turns, turns.len() as int));
}

/// Whether a column of the result is that of a column of a source: it has the same name
/// where that is one of the system, which begins with two underscores, else the name of
/// the table, a dot and the name.
pub open spec fn is_column_of(table: Seq<char>, source: Seq<char>, result: Seq<char>) -> bool {
    if source.len() >= 2 && source[0] == '_' && source[1] == '_' {
        result == source
    } else {
        result == table.push('.') + source
    }
}

/// Whether a column is the first of its name.
pub open spec fn is_first_named(columns: Seq<ColumnView>, o: int) -> bool {
    &&& 0 <= o < columns.len()
    &&& forall|k: int| 0 <= k < o ==> (#[trigger] columns[k]).name != columns[o].name
}

proof fn lemma_column_of(table: Seq<char>, source: Seq<char>, result: Seq<char>)
    ensures
        is_column_of(table, source, result) <==> result == combined_name(table, source),
{
    reveal_strlit("__");
    reveal_strlit(".");
    if source.len() >= 2 && source[0] == '_' && source[1] == '_' {
        assert(source.take(2) =~= "__"@);
    } else if is_system_name(source) {
        assert(source.take(2)[0] == "__"@[0]);
        assert(source.take(2)[1] == "__"@[1]);
    }
    assert(table + "."@ + source =~= table.push('.') + source);
}

proof fn lemma_shown_in(
    table: Seq<char>,
    source: Seq<ColumnView>,
    output: Seq<ColumnView>,
    o: int,
    c: int,
)
    requires
        0 <= o < output.len(),
        0 <= c < source.len(),
    ensures
        shown_in(table, source, output, c) == Some(o) <==> is_first_named(output, o)
            && is_column_of(table, source[c].name, output[o].name),
{
    let name = combined_name(table, source[c].name);
    lemma_column_of(table, source[c].name, output[o].name);
    lemma_column_position(output, name, 0);
    if let Some(k) = column_position(output, name, 0) {
        let _ = output[k];
        let _ = output[o];
    }
}

proof fn lemma_shows_column(
    table: Seq<char>,
    source: Seq<ColumnView>,
    output: Seq<ColumnView>,
    o: int,
    n: int,
)
    requires
        0 <= o < output.len(),
        0 <= n <= source.len(),
    ensures
        match shows_column(table, source, output, o, n) {
            Some(c) => 0 <= c < n && is_first_named(output, o) && is_column_of(
                table,
                source[c].name,
                output[o].name,
            ),
            None => forall|c: int|
                0 <= c < n ==> !(is_first_named(output, o) && is_column_of(
                    table,
                    (#[trigger] source[c]).name,
                    output[o].name,
                )),
        },
    decreases n,
{
    if n > 0 {
        lemma_shows_column(table, source, output, o, n - 1);
        lemma_shown_in(table, source, output, o, n - 1);
    }
}

/// A column of the result shows a column of a source that has its name there, if there is
/// one, and nothing else: a system column under its own name, any other one under the name
/// of its table, a dot and its name. Rows are ordered by the first columns of the source
/// with the names of its entity column and its time column.
pub proof fn theorem_columns_mapped(
    desc: SubSourceDesc,
    table: Seq<char>,
    source: Seq<ColumnView>,
    output: Seq<ColumnView>,
    entity: Seq<char>,
    time: Seq<char>,
)
    requires
        desc.describes(table, source, output, entity, time),
    ensures
        desc.entity_key_col < source.len() && source[desc.entity_key_col as int].name == entity
            && is_first_named(source, desc.entity_key_col as int),
        desc.ts_col < source.len() && source[desc.ts_col as int].name == time && is_first_named(
            source,
            desc.ts_col as int,
        ),
        forall|o: int|
            0 <= o < output.len() && (#[trigger] desc.reverse_col_map@[o]) is Some ==> {
                let c = desc.reverse_col_map@[o]->0 as int;
                c < source.len() && is_column_of(table, source[c].name, output[o].name)
            },
        forall|o: int, c: int|
            0 <= o < output.len() && 0 <= c < source.len() && is_first_named(output, o)
                && is_column_of(table, (#[trigger] source[c]).name, output[o].name) ==> (
            #[trigger] desc.reverse_col_map@[o]) is Some,
{
    lemma_column_position(source, entity, 0);
    lemma_column_position(source, time, 0);
    assert forall|o: int| 0 <= o < output.len() implies opt_int(
        #[trigger] desc.reverse_col_map@[o],
    ) == shows_column(table, source, output, o, source.len() as int) by {}
    assert forall|o: int|
        0 <= o < output.len() && (#[trigger] desc.reverse_col_map@[o]) is Some implies {
        let c = desc.reverse_col_map@[o]->0 as int;
        c < source.len() && is_column_of(table, source[c].name, output[o].name)
    } by {
        lemma_shows_column(table, source, output, o, source.len() as int);
    }
    assert forall|o: int, c: int|
        0 <= o < output.len() && 0 <= c < source.len() && is_first_named(output, o) && is_column_of(
            table,
            (#[trigger] source[c]).name,
            output[o].name,
        ) implies (#[trigger] desc.reverse_col_map@[o]) is Some by {
        lemma_shows_column(table, source, output, o, source.len() as int);
    }
}

} // verus!
