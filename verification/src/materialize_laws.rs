//! Which cells a materialized batch holds.

use arrow::array::ArrayData;
use arrow::datatypes::DataType;
use vstd::prelude::*;

use crate::chunks::{ChunkView, can_unify, chunk_view, entry_chars, filled_cells, join_outcome,
    one_plain_type, plain_cells, plain_type, theorem_unify_distinct, union_entries, unpacked_cells,
    with_entries, with_text};
use crate::columnar::{ArrayView, CellView, DataKind, FieldView, array_view, array_views,
    batch_view, entry_type, no_nulls, storable, type_kind};
use crate::error::BqliteError;
use crate::materialize::{EncodedBatch, FilteredBatch, MaterializeMetrics, RowRef, SourceRun,
    StitchedBatch, StitchedRows, all_ref_chunks, all_run_chunks, batch_fields, capped_sum, contents,
    counted, first_bad_ref, first_bad_run, first_unjoined, fits, group_end, joined_columns,
    lemma_first_unjoined, lemma_group_end, measured, measures, ref_chunks, ref_rows, refs_within,
    run_chunks, runs_within, selected_as, selected_columns, selected_rows, selects_within,
    size_total, stitched_as, taken_chunk};
use crate::selection::{RowRun, RowSelection, run_rows};

verus! {

/// Whether a cell shows another one of a source: it is the same, but a null entry of a
/// dictionary is shown as a null or as the empty text.
pub open spec fn shows_cell(cell: Option<CellView>, of: Option<CellView>) -> bool {
    if of == Some(CellView::NullEntry) {
        cell is None || cell == Some(CellView::Str(Seq::empty())) || cell == of
    } else {
        cell == of
    }
}

/// The row of a source that comes `i`-th in a selection.
pub open spec fn selected_row(selection: Option<RowSelection>, i: int) -> int {
    match selection {
        None => i,
        Some(RowSelection::Indices(v)) => v.indices@[i] as int,
        Some(RowSelection::Runs(runs)) => RowSelection::Runs(runs).rows()[i] as int,
    }
}

/// How many rows are selected of a source.
pub open spec fn selected_count(selection: Option<RowSelection>, row_count: u32) -> int {
    match selection {
        None => row_count as int,
        Some(RowSelection::Indices(v)) => v.indices@.len() as int,
        Some(RowSelection::Runs(runs)) => RowSelection::Runs(runs).rows().len() as int,
    }
}

/// The selected rows of a source become a batch with the columns of the source: row `i`
/// holds the cells of the row that comes `i`-th in the selection. The fields have the
/// names of the schema.
pub proof fn theorem_selected_rows(
    r: Result<FilteredBatch, BqliteError>,
    batch: EncodedBatch,
    selection: Option<RowSelection>,
    types: nat,
    fields: Seq<FieldView>,
    prefer_dict_string: bool,
)
    requires
        batch.wf(),
        selects_within(selection, batch.row_count),
        selected_as(r, batch, selection, types, fields, prefer_dict_string),
        r is Ok,
    ensures
        ({
            let out = batch_view(r->Ok_0.batch);
            &&& batch.columns@.len() == types == fields.len()
            &&& out.columns.len() == types
            &&& out.fields.len() == types
            &&& out.rows == selected_count(selection, batch.row_count)
            &&& r->Ok_0.selection is None
            &&& forall|c: int|
                0 <= c < types ==> (#[trigger] out.columns[c]).cells.len() == selected_count(
                    selection,
                    batch.row_count,
                ) && out.columns[c].data_type == array_view(batch.columns@[c]).data_type
                    && out.fields[c].name == fields[c].name && out.fields[c].nullable
                    == fields[c].nullable
            &&& forall|c: int, i: int|
                0 <= c < types && 0 <= i < selected_count(selection, batch.row_count)
                    ==> #[trigger] out.columns[c].cells[i] == array_view(
                    batch.columns@[c],
                ).cells[selected_row(selection, i)]
        }),
{
    let out = batch_view(r->Ok_0.batch);
    let columns = selected_columns(batch, selection);
    assert(contents(out.columns) == columns);
    assert(contents(out.columns).len() == out.columns.len());
    assert(columns.len() == batch.columns@.len());
    assert forall|c: int| 0 <= c < types implies (#[trigger] out.columns[c]).cells
        == columns[c].cells && out.columns[c].data_type == columns[c].data_type by {
        assert(contents(out.columns)[c] == columns[c]);
    }
    let _ = columns[0];
}

/// The cells of the first `n` chunks, as they are.
spec fn raw_cells(chunks: Seq<ChunkView>, n: int) -> Seq<Option<CellView>>
    decreases n,
{
    if n <= 0 {
        Seq::empty()
    } else {
        raw_cells(chunks, n - 1) + chunks[n - 1].view.cells
    }
}

proof fn lemma_filled(chunks: Seq<ChunkView>, n: int)
    requires
        0 <= n <= chunks.len(),
    ensures
        filled_cells(chunks, n).len() == raw_cells(chunks, n).len(),
        forall|i: int|
            0 <= i < raw_cells(chunks, n).len() ==> shows_cell(
                #[trigger] filled_cells(chunks, n)[i],
                raw_cells(chunks, n)[i],
            ) && (raw_cells(chunks, n)[i] == Some(CellView::NullEntry) ==> filled_cells(
                chunks,
                n,
            )[i] == Some(CellView::Str(Seq::empty()))),
    decreases n,
{
    if n > 0 {
        lemma_filled(chunks, n - 1);
    }
}

proof fn lemma_unpacked(chunks: Seq<ChunkView>, n: int)
    requires
        0 <= n <= chunks.len(),
    ensures
        unpacked_cells(chunks, n).len() == raw_cells(chunks, n).len(),
        forall|i: int|
            0 <= i < raw_cells(chunks, n).len() ==> shows_cell(
                #[trigger] unpacked_cells(chunks, n)[i],
                raw_cells(chunks, n)[i],
            ) && !(unpacked_cells(chunks, n)[i] is Some && unpacked_cells(chunks, n)[i]
                != raw_cells(chunks, n)[i]),
    decreases n,
{
    if n > 0 {
        lemma_unpacked(chunks, n - 1);
        let before = unpacked_cells(chunks, n - 1);
        let all = unpacked_cells(chunks, n);
        let raw = raw_cells(chunks, n);
        assert forall|i: int| 0 <= i < raw.len() implies shows_cell(#[trigger] all[i], raw[i]) && !(
        all[i] is Some && all[i] != raw[i]) by {
            if i >= before.len() {
                assert(all[i] == plain_cells(chunks[n - 1])[i - before.len()]);
                assert(raw[i] == chunks[n - 1].view.cells[i - before.len()]);
            } else {
                assert(all[i] == before[i]);
                assert(raw[i] == raw_cells(chunks, n - 1)[i]);
            }
        }
    }
}

proof fn lemma_joined(chunks: Seq<ChunkView>)
    requires
        join_outcome(chunks) is Joined,
    ensures
        ({
            let cells = join_outcome(chunks)->Joined_1;
            let raw = raw_cells(chunks, chunks.len() as int);
            &&& cells.len() == raw.len()
            &&& forall|i: int| 0 <= i < raw.len() ==> shows_cell(#[trigger] cells[i], raw[i])
            &&& can_unify(chunks) ==> forall|i: int|
                0 <= i < raw.len() && raw[i] == Some(CellView::NullEntry) ==> #[trigger] cells[i]
                    == Some(CellView::Str(Seq::empty()))
            &&& !can_unify(chunks) ==> forall|i: int|
                0 <= i < raw.len() && (#[trigger] cells[i]) is Some ==> cells[i] == raw[i]
        }),
{
    lemma_filled(chunks, chunks.len() as int);
    lemma_unpacked(chunks, chunks.len() as int);
}

/// How many rows come before those of chunk `k`.
pub open spec fn rows_before(chunks: Seq<ChunkView>, k: int) -> int
    decreases k,
{
    if k <= 0 {
        0
    } else {
        rows_before(chunks, k - 1) + chunks[k - 1].view.cells.len()
    }
}

/// Whether row `i` of chunk `k` has its place among the rows of the first `n` chunks.
spec fn is_placed(chunks: Seq<ChunkView>, n: int, k: int, i: int) -> bool {
    let place = rows_before(chunks, k) + i;
    &&& 0 <= place < rows_before(chunks, n)
    &&& raw_cells(chunks, n)[place] == chunks[k].view.cells[i]
}

proof fn lemma_raw(chunks: Seq<ChunkView>, n: int)
    requires
        0 <= n <= chunks.len(),
    ensures
        raw_cells(chunks, n).len() == rows_before(chunks, n),
        forall|k: int, i: int|
            0 <= k < n && 0 <= i < chunks[k].view.cells.len() ==> #[trigger] is_placed(
                chunks,
                n,
                k,
                i,
            ),
    decreases n,
{
    if n > 0 {
        lemma_raw(chunks, n - 1);
        let all = raw_cells(chunks, n);
        let before = raw_cells(chunks, n - 1);
        assert forall|k: int, i: int|
            0 <= k < n && 0 <= i < chunks[k].view.cells.len() implies #[trigger] is_placed(
            chunks,
            n,
            k,
            i,
        ) by {
            let place = rows_before(chunks, k) + i;
            if k == n - 1 {
                assert(all[before.len() + i] == chunks[n - 1].view.cells[i]);
            } else {
                assert(is_placed(chunks, n - 1, k, i));
                assert(all[place] == before[place]);
            }
        }
    }
}

/// One column out of its chunks holds the rows of all chunks, one chunk after the other.
/// Where dictionaries are merged a null entry is shown as the empty text, else it is never
/// shown as a text.
pub proof fn theorem_joined_rows(chunks: Seq<ChunkView>)
    requires
        join_outcome(chunks) is Joined,
    ensures
        ({
            let cells = join_outcome(chunks)->Joined_1;
            &&& cells.len() == rows_before(chunks, chunks.len() as int)
            &&& forall|k: int, i: int|
                0 <= k < chunks.len() && 0 <= i < chunks[k].view.cells.len() ==> shows_cell(
                    cells[rows_before(chunks, k) + i],
                    #[trigger] chunks[k].view.cells[i],
                )
            &&& forall|k: int, i: int|
                0 <= k < chunks.len() && 0 <= i < chunks[k].view.cells.len() && (
                #[trigger] chunks[k].view.cells[i]) == Some(CellView::NullEntry) ==> {
                    let cell = cells[rows_before(chunks, k) + i];
                    if can_unify(chunks) {
                        cell == Some(CellView::Str(Seq::empty()))
                    } else {
                        cell is None || cell == Some(CellView::NullEntry)
                    }
                }
        }),
{
    lemma_joined(chunks);
    lemma_raw(chunks, chunks.len() as int);
    let cells = join_outcome(chunks)->Joined_1;
    let raw = raw_cells(chunks, chunks.len() as int);
    assert forall|k: int, i: int|
        0 <= k < chunks.len() && 0 <= i < chunks[k].view.cells.len() implies shows_cell(
        cells[rows_before(chunks, k) + i],
        #[trigger] chunks[k].view.cells[i],
    ) by {
        let place = rows_before(chunks, k) + i;
        assert(is_placed(chunks, chunks.len() as int, k, i));
        assert(shows_cell(cells[place], raw[place]));
    }
    assert forall|k: int, i: int|
        0 <= k < chunks.len() && 0 <= i < chunks[k].view.cells.len() && (
        #[trigger] chunks[k].view.cells[i]) == Some(CellView::NullEntry) implies {
        let cell = cells[rows_before(chunks, k) + i];
        if can_unify(chunks) {
            cell == Some(CellView::Str(Seq::empty()))
        } else {
            cell is None || cell == Some(CellView::NullEntry)
        }
    } by {
        let place = rows_before(chunks, k) + i;
        assert(is_placed(chunks, chunks.len() as int, k, i));
        assert(raw[place] == Some(CellView::NullEntry));
        let cell = cells[place];
        assert(shows_cell(cell, raw[place]));
    }
}

/// The text that an entry of a dictionary stands for in a merged one.
pub open spec fn is_entry_text(chunks: Seq<ChunkView>, text: Seq<char>) -> bool {
    exists|k: int, i: int|
        0 <= k < chunks.len() && 0 <= i < chunks[k].entries.len() && match (
        #[trigger] chunks[k].entries[i]) {
            Some(s) => s == text,
            None => text.len() == 0,
        }
}

proof fn lemma_with_entries(
    list: Seq<Seq<char>>,
    entries: Seq<Option<Seq<char>>>,
    n: int,
    text: Seq<char>,
)
    requires
        0 <= n <= entries.len(),
    ensures
        with_entries(list, entries, n).contains(text) <==> list.contains(text) || exists|i: int|
            0 <= i < n && entry_chars(#[trigger] entries[i]) == text,
    decreases n,
{
    if n > 0 {
        lemma_with_entries(list, entries, n - 1, text);
        let before = with_entries(list, entries, n - 1);
        let last = entry_chars(entries[n - 1]);
        let all = with_text(before, last);
        if !before.contains(last) {
            assert(all[before.len() as int] == last);
            if before.contains(text) {
                let i = choose|i: int| 0 <= i < before.len() && before[i] == text;
                assert(all[i] == text);
            }
        }
    }
}

proof fn lemma_union(chunks: Seq<ChunkView>, n: int, text: Seq<char>)
    requires
        0 <= n <= chunks.len(),
    ensures
        union_entries(chunks, n).contains(text) <==> exists|k: int, i: int|
            0 <= k < n && 0 <= i < chunks[k].entries.len() && entry_chars(
                #[trigger] chunks[k].entries[i],
            ) == text,
    decreases n,
{
    if n > 0 {
        lemma_union(chunks, n - 1, text);
        let c = chunks[n - 1];
        lemma_with_entries(
            union_entries(chunks, n - 1),
            c.entries,
            c.entries.len() as int,
            text,
        );
        if exists|i: int| 0 <= i < c.entries.len() && entry_chars(#[trigger] c.entries[i]) == text {
            let i = choose|i: int|
                0 <= i < c.entries.len() && entry_chars(#[trigger] c.entries[i]) == text;
            assert(entry_chars(chunks[n - 1].entries[i]) == text);
        }
    }
}

/// Dictionaries are merged if there is one, each is one of text that is numbered by one
/// byte, their entries are no more than 256 different texts, and each can be stored. A
/// null entry counts as the empty text.
pub proof fn theorem_when_merged(chunks: Seq<ChunkView>, texts: Seq<Seq<char>>)
    requires
        texts.no_duplicates(),
        forall|s: Seq<char>| #[trigger] texts.contains(s) <==> is_entry_text(chunks, s),
    ensures
        can_unify(chunks) <==> {
            &&& chunks.len() > 0
            &&& forall|i: int|
                0 <= i < chunks.len() ==> type_kind((#[trigger] chunks[i]).view.data_type)
                    == DataKind::DictUInt8Utf8View
            &&& texts.len() <= 256
            &&& forall|i: int| 0 <= i < texts.len() ==> storable(#[trigger] texts[i])
        },
{
    let entries = union_entries(chunks, chunks.len() as int);
    theorem_unify_distinct(chunks, chunks.len() as int);
    assert forall|s: Seq<char>| entries.contains(s) <==> #[trigger] texts.contains(s) by {
        lemma_union(chunks, chunks.len() as int, s);
        if is_entry_text(chunks, s) {
            let (k, i) = choose|k: int, i: int|
                0 <= k < chunks.len() && 0 <= i < chunks[k].entries.len() && match (
                #[trigger] chunks[k].entries[i]) {
                    Some(x) => x == s,
                    None => s.len() == 0,
                };
            assert(entry_chars(chunks[k].entries[i]) =~= s);
        }
        if entries.contains(s) {
            let (k, i) = choose|k: int, i: int|
                0 <= k < chunks.len() && 0 <= i < chunks[k].entries.len() && entry_chars(
                    #[trigger] chunks[k].entries[i],
                ) == s;
            let e = chunks[k].entries[i];
            assert(match e {
                Some(x) => x == s,
                None => s.len() == 0,
            });
        }
    }
    assert(entries.to_set() =~= texts.to_set()) by {
        assert forall|s: Seq<char>| entries.to_set().contains(s) <==> texts.to_set().contains(s) by {
            assert(entries.contains(s) <==> texts.contains(s));
        }
    }
    entries.unique_seq_to_set();
    texts.unique_seq_to_set();
    assert(entries.len() == texts.len());
    if forall|i: int| 0 <= i < texts.len() ==> storable(#[trigger] texts[i]) {
        assert forall|i: int| 0 <= i < entries.len() implies storable(#[trigger] entries[i]) by {
            assert(entries.contains(entries[i]));
            assert(texts.contains(entries[i]));
        }
    }
    if forall|i: int| 0 <= i < entries.len() ==> storable(#[trigger] entries[i]) {
        assert forall|i: int| 0 <= i < texts.len() implies storable(#[trigger] texts[i]) by {
            assert(texts.contains(texts[i]));
            assert(entries.contains(texts[i]));
        }
    }
}

proof fn lemma_raw_front(c: ChunkView, rest: Seq<ChunkView>, n: int)
    requires
        0 <= n <= rest.len(),
    ensures
        raw_cells(seq![c] + rest, n + 1) == c.view.cells + raw_cells(rest, n),
    decreases n,
{
    let all = seq![c] + rest;
    if n > 0 {
        lemma_raw_front(c, rest, n - 1);
        assert(all[n] == rest[n - 1]);
        assert(raw_cells(all, n + 1) =~= c.view.cells + raw_cells(rest, n));
    } else {
        assert(all[0] == c);
        assert(raw_cells(all, 0) =~= Seq::empty());
        assert(raw_cells(all, 1) =~= c.view.cells + raw_cells(rest, 0));
    }
}

/// The cell of a column that a reference refers to.
pub open spec fn cell_of(sources: Seq<EncodedBatch>, at: RowRef, c: int) -> Option<CellView> {
    array_view(sources[at.source as int].columns@[c]).cells[at.row as int]
}

proof fn lemma_raw_refs(sources: Seq<EncodedBatch>, refs: Seq<RowRef>, c: int, i: int)
    requires
        refs_within(sources, refs),
        0 <= i <= refs.len(),
    ensures
        ({
            let chunks = ref_chunks(sources, refs, c, i);
            raw_cells(chunks, chunks.len() as int) == Seq::new(
                (refs.len() - i) as nat,
                |k: int| cell_of(sources, refs[i + k], c),
            )
        }),
    decreases refs.len() - i,
{
    let chunks = ref_chunks(sources, refs, c, i);
    let want = Seq::new((refs.len() - i) as nat, |k: int| cell_of(sources, refs[i + k], c));
    if i < refs.len() {
        lemma_group_end(refs, i);
        let end = group_end(refs, i);
        let rest = ref_chunks(sources, refs, c, end);
        let first = taken_chunk(
            chunk_view(sources[refs[i].source as int].columns@[c]),
            ref_rows(refs, i, end),
        );
        lemma_raw_refs(sources, refs, c, end);
        assert(chunks == seq![first] + rest);
        lemma_raw_front(first, rest, rest.len() as int);
        assert forall|k: int| 0 <= k < want.len() implies want[k] == (first.view.cells + raw_cells(
            rest,
            rest.len() as int,
        ))[k] by {
            if k < end - i {
                let _ = refs[i + k];
            }
        }
        assert(first.view.cells + raw_cells(rest, rest.len() as int) =~= want);
    } else {
        assert(chunks =~= Seq::empty());
        assert(want =~= Seq::empty());
    }
}

/// Whether a batch holds, in its columns, the rows that references refer to, in their
/// order.
pub open spec fn holds_refs(
    out: crate::columnar::BatchView,
    sources: Seq<EncodedBatch>,
    refs: Seq<RowRef>,
    types: nat,
) -> bool {
    &&& out.columns.len() == types
    &&& out.rows == refs.len()
    &&& forall|c: int| 0 <= c < types ==> (#[trigger] out.columns[c]).cells.len() == refs.len()
    &&& forall|c: int, i: int|
        0 <= c < types && 0 <= i < refs.len() ==> shows_cell(
            #[trigger] out.columns[c].cells[i],
            cell_of(sources, refs[i], c),
        )
}

/// How many rows the runs before run `k` have.
pub open spec fn rows_of_runs(runs: Seq<SourceRun>, k: int) -> int
    decreases k,
{
    if k <= 0 {
        0
    } else {
        rows_of_runs(runs, k - 1) + runs[k - 1].len
    }
}

/// Whether a batch holds, in its columns, the rows of runs, one run after the other.
pub open spec fn holds_runs(
    out: crate::columnar::BatchView,
    sources: Seq<EncodedBatch>,
    runs: Seq<SourceRun>,
    types: nat,
) -> bool {
    &&& out.columns.len() == types
    &&& out.rows == rows_of_runs(runs, runs.len() as int)
    &&& forall|c: int|
        0 <= c < types ==> (#[trigger] out.columns[c]).cells.len() == rows_of_runs(
            runs,
            runs.len() as int,
        )
    &&& forall|c: int, k: int, x: int|
        0 <= c < types && 0 <= k < runs.len() && 0 <= x < runs[k].len ==> shows_cell(
            (#[trigger] out.columns[c]).cells[rows_of_runs(runs, k) + x],
            #[trigger] array_view(sources[runs[k].source as int].columns@[c]).cells[runs[k].start
                + x],
        )
}

proof fn lemma_runs_before(sources: Seq<EncodedBatch>, runs: Seq<SourceRun>, c: int, n: int)
    requires
        0 <= n <= runs.len(),
    ensures
        rows_before(run_chunks(sources, runs, c), n) == rows_of_runs(runs, n),
    decreases n,
{
    if n > 0 {
        lemma_runs_before(sources, runs, c, n - 1);
    }
}

proof fn lemma_assembled(
    r: Result<FilteredBatch, BqliteError>,
    fields: Seq<FieldView>,
    columns: Seq<Seq<ChunkView>>,
    prefer_dict_string: bool,
    c: int,
)
    requires
        crate::materialize::assembled_as(r, fields, columns, prefer_dict_string),
        r is Ok,
        0 <= c < columns.len(),
    ensures
        join_outcome(columns[c]) is Joined,
        batch_view(r->Ok_0.batch).columns.len() == columns.len(),
        batch_view(r->Ok_0.batch).columns[c].cells == join_outcome(columns[c])->Joined_1,
        batch_view(r->Ok_0.batch).rows == join_outcome(columns[0])->Joined_1.len(),
{
    lemma_first_unjoined(columns, 0);
    let out = batch_view(r->Ok_0.batch);
    let joined = joined_columns(columns);
    assert(first_unjoined(columns, 0) is None);
    assert(contents(out.columns) == joined);
    assert(contents(out.columns).len() == out.columns.len());
    assert(contents(out.columns)[c] == joined[c]);
    let _ = columns[c];
}

/// A batch made of rows of several sources holds the rows that it is made of: those that
/// references refer to, in their order, or those of runs, one run after the other.
pub proof fn theorem_stitched_rows(
    r: Result<FilteredBatch, BqliteError>,
    stitched: StitchedBatch,
    types: nat,
    fields: Seq<FieldView>,
    prefer_dict_string: bool,
)
    requires
        stitched.wf(),
        stitched_as(r, stitched, types, fields, prefer_dict_string),
        r is Ok,
    ensures
        stitched.rows matches StitchedRows::Indices(refs) ==> holds_refs(
            batch_view(r->Ok_0.batch),
            stitched.sources@,
            refs@,
            types,
        ),
        stitched.rows matches StitchedRows::Runs(runs) ==> holds_runs(
            batch_view(r->Ok_0.batch),
            stitched.sources@,
            runs@,
            types,
        ),
        stitched.rows matches StitchedRows::SingleSource { source, selection } ==> source
            < stitched.sources@.len() && selected_as(
            r,
            stitched.sources@[source as int],
            selection,
            types,
            fields,
            prefer_dict_string,
        ),
{
    let sources = stitched.sources@;
    let out = batch_view(r->Ok_0.batch);
    match stitched.rows {
        StitchedRows::Indices(refs) => {
            let columns = all_ref_chunks(sources, refs@, types);
            assert(first_bad_ref(sources, refs@, types, 0) is None);
            assert(columns.len() == types);
            lemma_nonempty(r, fields, columns, prefer_dict_string);
            assert forall|c: int| 0 <= c < types implies out.columns.len() == types && (
            #[trigger] out.columns[c]).cells.len() == refs@.len() && out.rows == refs@.len()
                && join_outcome(columns[c]) is Joined && out.columns[c].cells == join_outcome(
                columns[c],
            )->Joined_1 by {
                lemma_assembled(r, fields, columns, prefer_dict_string, c);
                lemma_assembled(r, fields, columns, prefer_dict_string, 0);
                lemma_joined(columns[c]);
                lemma_joined(columns[0]);
                lemma_raw_refs(sources, refs@, c, 0);
                lemma_raw_refs(sources, refs@, 0, 0);
            }
            assert forall|c: int, i: int| 0 <= c < types && 0 <= i < refs@.len() implies shows_cell(
                #[trigger] out.columns[c].cells[i],
                cell_of(sources, refs@[i], c),
            ) by {
                lemma_assembled(r, fields, columns, prefer_dict_string, c);
                lemma_joined(columns[c]);
                lemma_raw_refs(sources, refs@, c, 0);
                let chunks = columns[c];
                let raw = raw_cells(chunks, chunks.len() as int);
                assert(raw[i] == cell_of(sources, refs@[i], c));
                assert(shows_cell(join_outcome(chunks)->Joined_1[i], raw[i]));
            }
            let _ = out.columns[0];
        },
        StitchedRows::Runs(runs) => {
            let columns = all_run_chunks(sources, runs@, types);
            let n = runs@.len() as int;
            assert(first_bad_run(sources, runs@, types, 0) is None);
            assert(columns.len() == types);
            lemma_nonempty(r, fields, columns, prefer_dict_string);
            assert forall|c: int| 0 <= c < types implies out.columns.len() == types && (
            #[trigger] out.columns[c]).cells.len() == rows_of_runs(runs@, n) && out.rows
                == rows_of_runs(runs@, n) && join_outcome(columns[c]) is Joined
                && out.columns[c].cells == join_outcome(columns[c])->Joined_1 by {
                lemma_assembled(r, fields, columns, prefer_dict_string, c);
                lemma_assembled(r, fields, columns, prefer_dict_string, 0);
                theorem_joined_rows(columns[c]);
                theorem_joined_rows(columns[0]);
                lemma_runs_before(sources, runs@, c, n);
                lemma_runs_before(sources, runs@, 0, n);
            }
            assert forall|c: int, k: int, x: int|
                0 <= c < types && 0 <= k < runs@.len() && 0 <= x < runs@[k].len implies shows_cell(
                (#[trigger] out.columns[c]).cells[rows_of_runs(runs@, k) + x],
                #[trigger] array_view(
                    sources[runs@[k].source as int].columns@[c],
                ).cells[runs@[k].start + x],
            ) by {
                lemma_assembled(r, fields, columns, prefer_dict_string, c);
                theorem_joined_rows(columns[c]);
                lemma_runs_before(sources, runs@, c, k);
                let chunk = columns[c][k];
                assert(chunk == run_chunks(sources, runs@, c)[k]);
                lemma_run_fits(stitched, runs@, k, types);
                assert(run_rows(RowRun { start: runs@[k].start, len: runs@[k].len })[x] as int
                    == runs@[k].start + x);
                assert(chunk.view.cells[x] == array_view(
                    sources[runs@[k].source as int].columns@[c],
                ).cells[runs@[k].start + x]);
            }
            let _ = out.columns[0];
        },
        StitchedRows::SingleSource { source, selection } => {},
    }
}

proof fn lemma_nonempty(
    r: Result<FilteredBatch, BqliteError>,
    fields: Seq<FieldView>,
    columns: Seq<Seq<ChunkView>>,
    prefer_dict_string: bool,
)
    requires
        crate::materialize::assembled_as(r, fields, columns, prefer_dict_string),
        r is Ok,
    ensures
        columns.len() > 0,
{
    lemma_first_unjoined(columns, 0);
    assert(joined_columns(columns).len() == columns.len());
}

proof fn lemma_run_fits(stitched: StitchedBatch, runs: Seq<SourceRun>, k: int, types: nat)
    requires
        stitched.wf(),
        stitched.rows matches StitchedRows::Runs(list) && list@ == runs,
        first_bad_run(stitched.sources@, runs, types, 0) is None,
        0 <= k < runs.len(),
    ensures
        runs[k].start + runs[k].len <= u32::MAX,
{
    lemma_no_bad_run(stitched.sources@, runs, types, 0, k);
    assert(runs_within(stitched.sources@, runs));
    let _ = runs[k];
}

proof fn lemma_no_bad_run(
    sources: Seq<EncodedBatch>,
    runs: Seq<SourceRun>,
    types: nat,
    i: int,
    k: int,
)
    requires
        first_bad_run(sources, runs, types, i) is None,
        0 <= i <= k < runs.len(),
    ensures
        runs[k].source < sources.len(),
    decreases k - i,
{
    if i < k {
        lemma_no_bad_run(sources, runs, types, i + 1, k);
    }
}

/// The sum of the first `n` sizes.
pub open spec fn sum_of(sizes: Seq<usize>, n: int) -> int
    decreases n,
{
    if n <= 0 {
        0
    } else {
        sum_of(sizes, n - 1) + sizes[n - 1]
    }
}

/// Whether a counter has gone up by a number, or stands at its limit because the sum is
/// beyond it.
pub open spec fn went_up(before: u64, after: u64, by: int) -> bool {
    if before + by <= 0xffff_ffff_ffff_ffff {
        after == before + by
    } else {
        after == 0xffff_ffff_ffff_ffff
    }
}

proof fn lemma_size_sum(sizes: Seq<usize>, n: int)
    ensures
        sum_of(sizes, n) >= 0,
        went_up(0, size_total(sizes, n), sum_of(sizes, n)),
    decreases n,
{
    if n > 0 {
        lemma_size_sum(sizes, n - 1);
    }
}

/// Whether a number of bytes is the sum of what Arrow has said of the sizes of columns, or
/// the limit of the counter where the sum is beyond it.
pub open spec fn is_size(columns: Seq<ArrayView>, bytes: u64) -> bool {
    exists|arrays: Seq<ArrayData>, sizes: Seq<usize>|
        {
            &&& #[trigger] measured(arrays, sizes)
            &&& array_views(arrays) == columns
            &&& went_up(0, bytes, sum_of(sizes, sizes.len() as int))
        }
}

/// Where a source has the wanted number of columns, the rows selected of it are counted,
/// and, if a batch was made of them, its rows and its bytes. Nothing else is counted.
pub proof fn theorem_counted(
    r: Result<FilteredBatch, BqliteError>,
    before: MaterializeMetrics,
    after: MaterializeMetrics,
    batch: EncodedBatch,
    selection: Option<RowSelection>,
    types: nat,
    fields: nat,
)
    requires
        counted(r, before, after, batch, selection, types, fields),
    ensures
        after.selection_vector_materializations == before.selection_vector_materializations,
        (batch.columns@.len() != types || batch.columns@.len() != fields) ==> after == before,
        batch.columns@.len() == types && batch.columns@.len() == fields ==> went_up(
            before.selected_rows_before_materialization,
            after.selected_rows_before_materialization,
            selected_count(selection, batch.row_count),
        ),
        r is Err ==> after.materialized_rows == before.materialized_rows
            && after.bytes_materialized_after_filter == before.bytes_materialized_after_filter,
        r is Ok && batch.columns@.len() == types && batch.columns@.len() == fields ==> went_up(
            before.materialized_rows,
            after.materialized_rows,
            batch_view(r->Ok_0.batch).rows as int,
        ) && exists|bytes: u64|
            #[trigger] is_size(batch_view(r->Ok_0.batch).columns, bytes) && went_up(
                before.bytes_materialized_after_filter,
                after.bytes_materialized_after_filter,
                bytes as int,
            ),
{
    if r is Ok && batch.columns@.len() == types && batch.columns@.len() == fields {
        let columns = batch_view(r->Ok_0.batch).columns;
        let bytes = choose|bytes: u64|
            #[trigger] measures(columns, bytes) && after.bytes_materialized_after_filter
                == capped_sum(before.bytes_materialized_after_filter, bytes as int);
        let (arrays, sizes) = choose|arrays: Seq<ArrayData>, sizes: Seq<usize>|
            {
                &&& #[trigger] measured(arrays, sizes)
                &&& array_views(arrays) == columns
                &&& bytes == size_total(sizes, sizes.len() as int)
            };
        lemma_size_sum(sizes, sizes.len() as int);
        assert(is_size(columns, bytes));
    }
}

/// The selected rows of a source can be made into a batch exactly where there are as many
/// columns, at least one, as types and as fields, each field has the type of its column, if
/// the types are not taken from the columns anyway, and no null is selected of a column
/// whose field does not allow it.
pub proof fn theorem_when_selected(
    r: Result<FilteredBatch, BqliteError>,
    batch: EncodedBatch,
    selection: Option<RowSelection>,
    types: nat,
    fields: Seq<FieldView>,
    prefer_dict_string: bool,
)
    requires
        selected_as(r, batch, selection, types, fields, prefer_dict_string),
    ensures
        r is Ok <==> {
            &&& batch.columns@.len() == types
            &&& fields.len() == types
            &&& types > 0
            &&& prefer_dict_string || forall|c: int|
                0 <= c < types ==> (#[trigger] fields[c]).data_type == array_view(
                    batch.columns@[c],
                ).data_type
            &&& forall|c: int, i: int|
                0 <= c < types && 0 <= i < selected_count(selection, batch.row_count)
                    && !fields[c].nullable ==> (#[trigger] array_view(
                    batch.columns@[c],
                ).cells[selected_row(selection, i)]) is Some
        },
{
    let columns = selected_columns(batch, selection);
    let rows = selected_rows(selection, batch.row_count);
    let shown = batch_fields(fields, columns, prefer_dict_string);
    assert(rows.len() == selected_count(selection, batch.row_count));
    if batch.columns@.len() == types && fields.len() == types {
        assert forall|c: int, i: int| 0 <= c < types && 0 <= i < rows.len() implies columns[c].cells[i]
            == #[trigger] array_view(batch.columns@[c]).cells[selected_row(selection, i)] by {
            assert(rows[i] as int == selected_row(selection, i));
        }
        if fits(shown, columns) {
            assert forall|c: int, i: int|
                0 <= c < types && 0 <= i < rows.len() && !fields[c].nullable implies (
            #[trigger] array_view(batch.columns@[c]).cells[selected_row(selection, i)]) is Some by {
                assert(no_nulls(columns[c].cells));
                assert(columns[c].cells[i] is Some);
            }
            assert forall|c: int| 0 <= c < types && !prefer_dict_string implies (
            #[trigger] fields[c]).data_type == array_view(batch.columns@[c]).data_type by {
                assert(columns[c].data_type == shown[c].data_type);
            }
        } else if types > 0 && (prefer_dict_string || forall|c: int|
            0 <= c < types ==> (#[trigger] fields[c]).data_type == array_view(
                batch.columns@[c],
            ).data_type) {
            assert(columns[0].cells.len() == rows.len());
            let c = choose|c: int|
                0 <= c < columns.len() && !{
                    &&& (#[trigger] columns[c]).cells.len() == columns[0].cells.len()
                    &&& columns[c].data_type == shown[c].data_type
                    &&& shown[c].nullable || no_nulls(columns[c].cells)
                };
            assert(columns[c].cells.len() == rows.len());
            assert(fields[c].nullable == shown[c].nullable);
            assert(columns[c].data_type == shown[c].data_type);
            assert(!no_nulls(columns[c].cells));
            let i = choose|i: int| 0 <= i < rows.len() && !((#[trigger] columns[c].cells[i]) is Some);
            assert(!(array_view(batch.columns@[c]).cells[selected_row(selection, i)] is Some));
        }
    }
}

/// The type of the values of a chunk: that of its entries where it is a dictionary.
pub open spec fn value_type(c: ChunkView) -> DataType {
    if entry_type(c.view.data_type) is Some {
        entry_type(c.view.data_type)->0
    } else {
        c.view.data_type
    }
}

/// Chunks can be joined exactly where there is one and their dictionaries can be merged or
/// their values have one type. A merged dictionary keeps its type, else the column has the
/// type of the values.
pub proof fn theorem_when_joined(chunks: Seq<ChunkView>)
    ensures
        join_outcome(chunks) is Joined <==> chunks.len() > 0 && (can_unify(chunks) || forall|i: int|
            0 <= i < chunks.len() ==> value_type(#[trigger] chunks[i]) == value_type(chunks[0])),
        join_outcome(chunks) is NoChunk <==> chunks.len() == 0,
        join_outcome(chunks) is Joined ==> join_outcome(chunks)->Joined_0 == (if can_unify(chunks) {
            chunks[0].view.data_type
        } else {
            value_type(chunks[0])
        }),
{
    assert forall|i: int| 0 <= i < chunks.len() implies plain_type(#[trigger] chunks[i])
        == value_type(chunks[i]) by {}
    if chunks.len() > 0 && one_plain_type(chunks) {
        assert forall|i: int| 0 <= i < chunks.len() implies value_type(#[trigger] chunks[i])
            == value_type(chunks[0]) by {
            assert(plain_type(chunks[i]) == plain_type(chunks[0]));
        }
    }
}

/// Whether joined columns make up a batch with fields: each has the type of its field, if
/// the types are not taken from the columns anyway, and holds a null only where the field
/// allows it.
pub open spec fn is_batch_of(
    fields: Seq<FieldView>,
    columns: Seq<Seq<ChunkView>>,
    prefer_dict_string: bool,
) -> bool {
    forall|c: int|
        0 <= c < columns.len() ==> {
            &&& join_outcome(#[trigger] columns[c]) is Joined
            &&& prefer_dict_string || join_outcome(columns[c])->Joined_0 == fields[c].data_type
            &&& fields[c].nullable || no_nulls(join_outcome(columns[c])->Joined_1)
        }
}

proof fn lemma_when_assembled(
    r: Result<FilteredBatch, BqliteError>,
    fields: Seq<FieldView>,
    columns: Seq<Seq<ChunkView>>,
    prefer_dict_string: bool,
)
    requires
        crate::materialize::assembled_as(r, fields, columns, prefer_dict_string),
        fields.len() == columns.len(),
        forall|c: int|
            0 <= c < columns.len() && join_outcome(#[trigger] columns[c]) is Joined
                && join_outcome(columns[0]) is Joined ==> join_outcome(columns[c])->Joined_1.len()
                == join_outcome(columns[0])->Joined_1.len(),
    ensures
        r is Ok <==> columns.len() > 0 && is_batch_of(fields, columns, prefer_dict_string),
{
    lemma_first_unjoined(columns, 0);
    if first_unjoined(columns, 0) is None {
        let joined = joined_columns(columns);
        let shown = batch_fields(fields, joined, prefer_dict_string);
        if fits(shown, joined) {
            assert forall|c: int| 0 <= c < columns.len() implies {
                &&& join_outcome(#[trigger] columns[c]) is Joined
                &&& prefer_dict_string || join_outcome(columns[c])->Joined_0 == fields[c].data_type
                &&& fields[c].nullable || no_nulls(join_outcome(columns[c])->Joined_1)
            } by {
                assert(joined[c].data_type == shown[c].data_type);
            }
        }
        if columns.len() > 0 && is_batch_of(fields, columns, prefer_dict_string) {
            assert forall|c: int| 0 <= c < joined.len() implies {
                &&& (#[trigger] joined[c]).cells.len() == joined[0].cells.len()
                &&& joined[c].data_type == shown[c].data_type
                &&& shown[c].nullable || no_nulls(joined[c].cells)
            } by {
                assert(join_outcome(columns[c]) is Joined);
                assert(join_outcome(columns[0]) is Joined);
            }
        }
    }
}

proof fn lemma_bad_run(sources: Seq<EncodedBatch>, runs: Seq<SourceRun>, types: nat, i: int)
    requires
        0 <= i,
    ensures
        first_bad_run(sources, runs, types, i) is None <==> forall|k: int|
            i <= k < runs.len() ==> (#[trigger] runs[k]).source < sources.len()
                && sources[runs[k].source as int].columns@.len() == types,
    decreases runs.len() - i,
{
    if i < runs.len() {
        lemma_bad_run(sources, runs, types, i + 1);
    }
}

proof fn lemma_bad_ref(sources: Seq<EncodedBatch>, refs: Seq<RowRef>, types: nat, i: int)
    requires
        0 <= i,
    ensures
        first_bad_ref(sources, refs, types, i) is None <==> forall|k: int|
            i <= k < refs.len() ==> sources[(#[trigger] refs[k]).source as int].columns@.len()
                == types,
    decreases refs.len() - i,
{
    if i < refs.len() {
        lemma_bad_ref(sources, refs, types, i + 1);
    }
}

/// Rows of several sources can be made into a batch exactly where there are as many fields
/// as types, at least one, every run or reference is to a source with that many columns, and
/// the joined columns make up a batch with the fields.
pub proof fn theorem_when_stitched(
    r: Result<FilteredBatch, BqliteError>,
    stitched: StitchedBatch,
    types: nat,
    fields: Seq<FieldView>,
    prefer_dict_string: bool,
)
    requires
        stitched.wf(),
        stitched_as(r, stitched, types, fields, prefer_dict_string),
    ensures
        stitched.rows matches StitchedRows::Runs(runs) ==> (r is Ok <==> {
            &&& fields.len() == types
            &&& types > 0
            &&& forall|k: int|
                0 <= k < runs@.len() ==> (#[trigger] runs@[k]).source < stitched.sources@.len()
                    && stitched.sources@[runs@[k].source as int].columns@.len() == types
            &&& is_batch_of(
                fields,
                Seq::new(types, |c: int| run_chunks(stitched.sources@, runs@, c)),
                prefer_dict_string,
            )
        }),
        stitched.rows matches StitchedRows::Indices(refs) ==> (r is Ok <==> {
            &&& fields.len() == types
            &&& types > 0
            &&& forall|k: int|
                0 <= k < refs@.len() ==> stitched.sources@[(
                #[trigger] refs@[k]).source as int].columns@.len() == types
            &&& is_batch_of(
                fields,
                Seq::new(types, |c: int| ref_chunks(stitched.sources@, refs@, c, 0)),
                prefer_dict_string,
            )
        }),
{
    let sources = stitched.sources@;
    match stitched.rows {
        StitchedRows::Runs(runs) => {
            let columns = all_run_chunks(sources, runs@, types);
            let n = runs@.len() as int;
            assert(columns == Seq::new(types, |c: int| run_chunks(sources, runs@, c)));
            lemma_bad_run(sources, runs@, types, 0);
            assert forall|c: int| 0 <= c < types && join_outcome(
                #[trigger] columns[c],
            ) is Joined implies join_outcome(columns[c])->Joined_1.len() == rows_of_runs(
                runs@,
                n,
            ) by {
                theorem_joined_rows(columns[c]);
                lemma_runs_before(sources, runs@, c, n);
            }
            if fields.len() == types && first_bad_run(sources, runs@, types, 0) is None {
                lemma_when_assembled(r, fields, columns, prefer_dict_string);
            }
        },
        StitchedRows::Indices(refs) => {
            let columns = all_ref_chunks(sources, refs@, types);
            assert(columns == Seq::new(types, |c: int| ref_chunks(sources, refs@, c, 0)));
            lemma_bad_ref(sources, refs@, types, 0);
            assert forall|c: int| 0 <= c < types && join_outcome(
                #[trigger] columns[c],
            ) is Joined implies join_outcome(columns[c])->Joined_1.len() == refs@.len() by {
                lemma_joined(columns[c]);
                lemma_raw_refs(sources, refs@, c, 0);
            }
            if fields.len() == types && first_bad_ref(sources, refs@, types, 0) is None {
                lemma_when_assembled(r, fields, columns, prefer_dict_string);
            }
        },
        _ => {},
    }
}

} // verus!
