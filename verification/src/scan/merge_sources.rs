//! Joining several tables into one stream of rows.
//!
//! Each source hands over batches whose rows are in order by entity and time. The
//! operator merges them into one stream in that order; rows that are as early
//! come in the order of the sources. A row of the result shows the columns of its
//! source, under names that begin with the name of the table, and is null in the
//! columns of the others. The column `__source_table_id` tells which source it
//! came from.
//!
//! Pulling batches from the sources is left to a driver. It asks for the next
//! step, and supplies the batch that is asked for or collects the batch that is
//! due. No row is picked while a source that may still have rows has none at
//! hand, because its next row could come first.

use arrow::array::ArrayData;
use arrow::datatypes::DataType;
use vstd::prelude::*;
use vstd::string::*;

use super::merge_order::{EntityKey, KeyView, RowKey, has_head, head, least, lemma_least, merged_row,
    row_not_after, taken, taken_n};
use crate::columnar::{Batch, BatchView, CellView, DataKind, SchemaSpec, array_view, array_views,
    arrow_schema, arrow_text, batch_view, buildable, column_at, data_kind, has_type, int64_array,
    int64_values, int_cells, is_plain, new_batch, no_nulls, null_array, null_count, num_columns,
    num_rows, physical_type, pick_rows, schema_fields, string_view_values, text_cells,
    timestamp_values, to_schema_spec, type_kind, type_of};
use crate::error::BqliteError;
use crate::schema::{BqlType, ColumnDef, ColumnView, OperatorSchema, column_position, find_column,
    is_system_name};
use crate::text::{decimal, decimal_text, has_prefix, join2, join3, text_views};

verus! {

/// The number of rows of a batch of the result.
pub const MERGE_SOURCES_BATCH_ROWS: usize = 65_536;

/// The column that tells which source a row came from.
pub const SOURCE_TABLE_ID_COLUMN: &'static str = "__source_table_id";

/// Where the columns of a source are found.
#[derive(Debug)]
pub struct SubSourceDesc {
    /// The position of the entity column in the batches of the source.
    pub entity_key_col: usize,
    /// The position of the time column in the batches of the source.
    pub ts_col: usize,
    /// The column of the result that each column of the source is shown in.
    pub col_map: Vec<Option<usize>>,
    /// The column of the source that each column of the result shows.
    pub reverse_col_map: Vec<Option<usize>>,
}

/// A batch of a source, with what orders its rows.
pub struct LoadedBatch {
    pub batch: Batch,
    pub keys: Vec<EntityKey>,
    pub stamps: Vec<i64>,
}

impl LoadedBatch {
    /// What orders the rows.
    pub open spec fn rows(&self) -> Seq<RowKey> {
        Seq::new(
            self.keys@.len(),
            |i: int| RowKey { key: self.keys@[i]@, ts: self.stamps@[i] },
        )
    }

    /// There is an entity and a time for every row.
    pub open spec fn wf(&self) -> bool {
        self.keys@.len() == self.stamps@.len() == batch_view(self.batch).rows
    }
}

/// A source.
pub struct SubSource {
    /// The batch that rows are picked from.
    pub current: Option<LoadedBatch>,
    /// The next row of that batch.
    pub cursor: usize,
    /// The batch after it, which waits until the picked rows are collected.
    pub pending: Option<LoadedBatch>,
    /// Whether the source has no more batches.
    pub exhausted: bool,
}

impl SubSource {
    /// What orders the rows of the current batch.
    pub open spec fn rows(&self) -> Seq<RowKey> {
        match self.current {
            Some(b) => b.rows(),
            None => Seq::empty(),
        }
    }

    /// Whether it is known which row of the source is next, or that there is
    /// none.
    pub open spec fn ready(&self) -> bool {
        self.exhausted || self.cursor < self.rows().len()
    }

    /// Whether a batch has to be pulled.
    pub open spec fn needs_batch(&self) -> bool {
        !self.ready() && self.pending is None
    }

    /// The source is consistent.
    pub open spec fn wf(&self) -> bool {
        &&& self.current matches Some(b) ==> b.wf()
        &&& self.pending matches Some(b) ==> b.wf()
        &&& self.cursor <= self.rows().len()
        &&& self.pending is Some ==> !self.exhausted && self.cursor == self.rows().len()
    }

    /// The batches at hand have the columns that the result shows of the source.
    pub open spec fn shows(&self, desc: SubSourceDesc) -> bool {
        &&& self.current matches Some(b) ==> desc.has_shown(batch_view(b.batch))
        &&& self.pending matches Some(b) ==> desc.has_shown(batch_view(b.batch))
    }
}

/// What the driver has to do.
#[derive(Debug, Clone, Copy, PartialEq, Eq, Structural)]
pub enum MergeAction {
    /// Pull a batch from this source and supply it.
    Pull(usize),
    /// Collect the batch that is due.
    Emit,
    /// Report the end.
    Done,
}

/// Which sources are known to have no more batches, and what they have at hand.
pub open spec fn all_ready(tables: Seq<Seq<RowKey>>, done: Seq<bool>, pos: Seq<int>) -> bool {
    forall|i: int| 0 <= i < tables.len() ==> #[trigger] done[i] || has_head(tables, pos, i)
}

/// The positions and the picked rows after as many rows were picked as possible:
/// until a batch is full, a source may have more rows than are at hand, or no row
/// is left.
pub open spec fn settled(
    tables: Seq<Seq<RowKey>>,
    done: Seq<bool>,
    pos: Seq<int>,
    picks: Seq<(int, int)>,
    target: nat,
) -> (Seq<int>, Seq<(int, int)>)
    decreases target - picks.len(),
{
    if picks.len() >= target || !all_ready(tables, done, pos) {
        (pos, picks)
    } else {
        match least(tables, pos, tables.len() as int) {
            Some(k) => settled(
                tables,
                done,
                pos.update(k, pos[k] + 1),
                picks.push((k, pos[k])),
                target,
            ),
            None => (pos, picks),
        }
    }
}

/// The picks as pairs of integers.
pub open spec fn pick_views(picks: Seq<(usize, usize)>) -> Seq<(int, int)> {
    Seq::new(picks.len(), |i: int| (picks[i].0 as int, picks[i].1 as int))
}

/// The name of a column of a source in the result.
pub open spec fn combined_name(table: Seq<char>, column: Seq<char>) -> Seq<char> {
    if is_system_name(column) {
        column
    } else {
        table + "."@ + column
    }
}

/// The column of the result that column `c` of a source is shown in.
pub open spec fn shown_in(
    table: Seq<char>,
    source: Seq<ColumnView>,
    output: Seq<ColumnView>,
    c: int,
) -> Option<int> {
    column_position(output, combined_name(table, source[c].name), 0)
}

/// The last of the first `n` columns of a source that is shown in column `o` of
/// the result.
pub open spec fn shows_column(
    table: Seq<char>,
    source: Seq<ColumnView>,
    output: Seq<ColumnView>,
    o: int,
    n: int,
) -> Option<int>
    decreases n,
{
    if n <= 0 {
        None
    } else if shown_in(table, source, output, n - 1) == Some(o) {
        Some(n - 1)
    } else {
        shows_column(table, source, output, o, n - 1)
    }
}

/// An optional position as an integer.
pub open spec fn opt_int(v: Option<usize>) -> Option<int> {
    match v {
        Some(i) => Some(i as int),
        None => None,
    }
}

impl SubSourceDesc {
    /// The columns of a source are found and mapped.
    pub open spec fn describes(
        &self,
        table: Seq<char>,
        source: Seq<ColumnView>,
        output: Seq<ColumnView>,
        entity: Seq<char>,
        time: Seq<char>,
    ) -> bool {
        &&& Some(self.entity_key_col as int) == column_position(source, entity, 0)
        &&& Some(self.ts_col as int) == column_position(source, time, 0)
        &&& self.col_map@.len() == source.len()
        &&& forall|c: int|
            0 <= c < source.len() ==> opt_int(#[trigger] self.col_map@[c]) == shown_in(
                table,
                source,
                output,
                c,
            )
        &&& self.reverse_col_map@.len() == output.len()
        &&& forall|o: int|
            0 <= o < output.len() ==> opt_int(#[trigger] self.reverse_col_map@[o])
                == shows_column(table, source, output, o, source.len() as int)
    }

    /// Whether a batch has the columns that order its rows, without nulls in the
    /// entity column.
    pub open spec fn can_load(&self, b: BatchView) -> bool {
        let e = b.columns[self.entity_key_col as int];
        let t = b.columns[self.ts_col as int];
        &&& self.entity_key_col < b.columns.len()
        &&& self.ts_col < b.columns.len()
        &&& type_kind(e.data_type) == DataKind::Utf8View || type_kind(e.data_type)
            == DataKind::Int64
        &&& no_nulls(e.cells)
        &&& type_kind(t.data_type) == DataKind::TimestampNs
    }

    /// Whether a batch has every column that is needed.
    pub open spec fn can_take(&self, b: BatchView) -> bool {
        self.can_load(b) && self.has_shown(b)
    }

    /// Whether a batch has the columns that the result shows.
    pub open spec fn has_shown(&self, b: BatchView) -> bool {
        forall|o: int|
            0 <= o < self.reverse_col_map@.len() ==> ((
            #[trigger] self.reverse_col_map@[o]) matches Some(c) ==> c < b.columns.len())
    }

    /// What orders the rows of a batch.
    pub open spec fn row_keys(&self, b: BatchView) -> Seq<RowKey> {
        Seq::new(
            b.rows,
            |r: int|
                RowKey {
                    key: cell_key(b.columns[self.entity_key_col as int].cells[r]),
                    ts: b.columns[self.ts_col as int].raw[r],
                },
        )
    }

    /// Reads what orders the rows of a batch.
    fn load(&self, batch: Batch) -> (r: LoadedBatch)
        requires
            self.can_load(batch_view(batch)),
        ensures
            r.wf(),
            r.batch == batch,
            r.rows() == self.row_keys(batch_view(batch)),
    {
        let ghost b = batch_view(batch);
        let e: ArrayData = column_at(&batch, self.entity_key_col);
        let t: ArrayData = column_at(&batch, self.ts_col);
        let ghost cells = array_view(e).cells;
        let mut keys: Vec<EntityKey> = Vec::new();
        let mut i: usize = 0;
        match string_view_values(&e) {
            Some(texts) => {
                assert(text_cells(texts@).len() == cells.len());
                while i < texts.len()
                    invariant
                        i <= texts@.len() == cells.len(),
                        keys@.len() == i,
                        text_cells(texts@) == cells,
                        no_nulls(cells),
                        forall|j: int| 0 <= j < i ==> (#[trigger] keys@[j])@ == cell_key(cells[j]),
                    decreases texts@.len() - i,
                {
                    assert(text_cells(texts@)[i as int] == cells[i as int]);
                    match &texts[i] {
                        Some(s) => keys.push(EntityKey::Text(s.clone())),
                        None => {
                            assert(cells[i as int] is Some);
                            assert(false);
                        },
                    }
                    i = i + 1;
                }
            },
            None => match int64_values(&e) {
                Some(ints) => {
                    while i < ints.len()
                        invariant
                            i <= ints@.len() == cells.len(),
                            keys@.len() == i,
                            no_nulls(cells),
                            forall|j: int|
                                0 <= j < ints@.len() && (#[trigger] cells[j]) is Some ==> cells[j]
                                    == Some(CellView::Int(ints@[j])),
                            forall|j: int|
                                0 <= j < i ==> (#[trigger] keys@[j])@ == cell_key(cells[j]),
                        decreases ints@.len() - i,
                    {
                        assert(cells[i as int] is Some);
                        keys.push(EntityKey::Int(ints[i]));
                        i = i + 1;
                    }
                },
                None => {
                    assert(false);
                },
            },
        }
        let stamps: Vec<i64> = match timestamp_values(&t) {
            Some(v) => v,
            None => {
                assert(false);
                Vec::new()
            },
        };
        let r = LoadedBatch { batch, keys, stamps };
        assert(r.rows() =~= self.row_keys(b));
        r
    }
}

/// The entity that a cell names.
pub open spec fn cell_key(cell: Option<CellView>) -> KeyView {
    match cell {
        Some(CellView::Str(s)) => KeyView::Text(s),
        Some(CellView::Int(n)) => KeyView::Int(n),
        _ => KeyView::Int(0),
    }
}

/// The operator.
pub struct MergeSourcesOperator {
    pub subs: Vec<SubSource>,
    pub descriptors: Vec<SubSourceDesc>,
    pub output_schema: OperatorSchema,
    /// The columns of the result.
    pub output_fields: SchemaSpec,
    /// The position of the column that tells the source, if there is one.
    pub source_table_id_col: Option<usize>,
    /// The number of rows of a batch of the result.
    pub batch_target_rows: usize,
    /// The rows that were picked and not yet collected.
    pub picks: Vec<(usize, usize)>,
    /// Whether every row was returned.
    pub exhausted: bool,
    pub opened: bool,
}

impl MergeSourcesOperator {
    /// What orders the rows at hand of each source.
    pub open spec fn tables(&self) -> Seq<Seq<RowKey>> {
        Seq::new(self.subs@.len(), |i: int| self.subs@[i].rows())
    }

    /// The next row of each source.
    pub open spec fn pos(&self) -> Seq<int> {
        Seq::new(self.subs@.len(), |i: int| self.subs@[i].cursor as int)
    }

    /// Which sources have no more batches.
    pub open spec fn done(&self) -> Seq<bool> {
        Seq::new(self.subs@.len(), |i: int| self.subs@[i].exhausted)
    }

    /// The operator is consistent.
    pub open spec fn wf(&self) -> bool {
        &&& self.base_wf()
        &&& forall|i: int| 0 <= i < self.subs@.len() ==> (#[trigger] self.subs@[i]).wf()
        &&& forall|i: int|
            0 <= i < self.subs@.len() ==> (#[trigger] self.subs@[i]).shows(self.descriptors@[i])
        &&& forall|i: int|
            0 <= i < self.subs@.len() && (#[trigger] self.subs@[i]).pending is Some
                ==> self.picks@.len() > 0
        &&& self.picks@.len() <= self.batch_target_rows
        &&& forall|p: int|
            0 <= p < self.picks@.len() ==> {
                &&& (#[trigger] self.picks@[p]).0 < self.subs@.len()
                &&& self.picks@[p].1 < self.subs@[self.picks@[p].0 as int].rows().len()
            }
    }

    /// Everything but the sources, the picked rows and whether it has come to its
    /// end.
    pub open spec fn same_setup(&self, other: &Self) -> bool {
        &&& self.descriptors == other.descriptors
        &&& self.output_schema == other.output_schema
        &&& self.output_fields == other.output_fields
        &&& self.source_table_id_col == other.source_table_id_col
        &&& self.batch_target_rows == other.batch_target_rows
        &&& self.opened == other.opened
    }
}

/// The first source, from `i` on, that needs a batch.
pub open spec fn first_needing(subs: Seq<SubSource>, i: int) -> Option<int>
    decreases subs.len() - i,
{
    if i >= subs.len() {
        None
    } else if subs[i].needs_batch() {
        Some(i)
    } else {
        first_needing(subs, i + 1)
    }
}

/// Whether a list of sources differs from another in the positions only.
pub open spec fn only_moved(a: Seq<SubSource>, b: Seq<SubSource>) -> bool {
    &&& a.len() == b.len()
    &&& forall|i: int|
        0 <= i < a.len() ==> #[trigger] a[i] == (SubSource { cursor: a[i].cursor, ..b[i] })
}

/// Whether an operator comes of another by picking as many rows as possible, and what
/// the driver then has to do.
pub open spec fn stepped(
    before: MergeSourcesOperator,
    after: MergeSourcesOperator,
    action: MergeAction,
) -> bool {
    &&& after.wf()
    &&& after.same_setup(&before)
    &&& only_moved(after.subs@, before.subs@)
    &&& (after.pos(), pick_views(after.picks@)) == settled(
        before.tables(),
        before.done(),
        before.pos(),
        pick_views(before.picks@),
        before.batch_target_rows as nat,
    )
    &&& action == after.next_action()
    &&& after.exhausted == (before.exhausted || action == MergeAction::Done)
}

/// Whether an operator comes of another by what was pulled from source `i`.
pub open spec fn supplied(
    before: MergeSourcesOperator,
    after: MergeSourcesOperator,
    i: int,
    batch: Option<Batch>,
) -> bool {
    &&& after.wf()
    &&& after.same_setup(&before)
    &&& after.picks == before.picks
    &&& after.exhausted == before.exhausted
    &&& after.subs@.len() == before.subs@.len()
    &&& forall|j: int|
        0 <= j < before.subs@.len() && j != i ==> #[trigger] after.subs@[j] == before.subs@[j]
    &&& match batch {
        None => after.subs@[i] == (SubSource { exhausted: true, ..before.subs@[i] }),
        Some(b) => if batch_view(b).rows == 0 {
            after.subs@[i] == before.subs@[i]
        } else {
            let rows = before.descriptors@[i].row_keys(batch_view(b));
            let source = after.subs@[i];
            &&& !source.exhausted
            &&& before.picks@.len() == 0 ==> {
                &&& source.current matches Some(c) && c.batch == b && c.rows() == rows
                &&& source.cursor == 0
                &&& source.pending is None
            }
            &&& before.picks@.len() > 0 ==> {
                &&& source.pending matches Some(c) && c.batch == b && c.rows() == rows
                &&& source.current == before.subs@[i].current
                &&& source.cursor == before.subs@[i].cursor
            }
        },
    }
}

/// Whether an operator comes of another by collecting the picked rows in a batch.
pub open spec fn collected(
    before: MergeSourcesOperator,
    after: MergeSourcesOperator,
    b: Batch,
) -> bool {
    &&& after.wf()
    &&& after.same_setup(&before)
    &&& after.exhausted == before.exhausted
    &&& batch_view(b).fields == schema_fields(before.output_schema@)
    &&& batch_view(b).rows == before.picks@.len()
    &&& batch_view(b).columns.len() == before.output_fields@.len()
    &&& forall|o: int|
        0 <= o < before.output_fields@.len() ==> {
            &&& (#[trigger] batch_view(b).columns[o]).data_type
                == before.output_fields@[o].data_type
            &&& batch_view(b).columns[o].cells == shown_cells(&before, o)
        }
    &&& after.picks@.len() == 0
    &&& after.subs@ == Seq::new(before.subs@.len(), |i: int| renewed(before.subs@[i]))
}

impl MergeSourcesOperator {
    /// Whether every source is ready.
    fn sources_ready(&self) -> (r: bool)
        requires
            self.wf(),
        ensures
            r == all_ready(self.tables(), self.done(), self.pos()),
    {
        let mut i: usize = 0;
        while i < self.subs.len()
            invariant
                i <= self.subs@.len(),
                self.wf(),
                forall|j: int|
                    0 <= j < i ==> #[trigger] self.done()[j] || has_head(
                        self.tables(),
                        self.pos(),
                        j,
                    ),
            decreases self.subs@.len() - i,
        {
            let sub: &SubSource = &self.subs[i];
            let left: bool = match &sub.current {
                Some(b) => sub.cursor < b.keys.len(),
                None => false,
            };
            assert(left == has_head(self.tables(), self.pos(), i as int));
            if !sub.exhausted && !left {
                assert(!self.done()[i as int]);
                return false;
            }
            i = i + 1;
        }
        true
    }

    /// The source whose next row comes first.
    fn find_least(&self) -> (r: Option<usize>)
        requires
            self.wf(),
        ensures
            opt_int(r) == least(self.tables(), self.pos(), self.tables().len() as int),
    {
        let ghost tables = self.tables();
        let ghost pos = self.pos();
        let mut best: Option<usize> = None;
        let mut i: usize = 0;
        while i < self.subs.len()
            invariant
                i <= self.subs@.len(),
                self.wf(),
                tables == self.tables(),
                pos == self.pos(),
                opt_int(best) == least(tables, pos, i as int),
            decreases self.subs@.len() - i,
        {
            proof {
                lemma_least(tables, pos, i as int);
                assert(self.subs@[i as int].wf());
                assert(tables[i as int] == self.subs@[i as int].rows());
                assert(pos[i as int] == self.subs@[i as int].cursor);
            }
            let sub: &SubSource = &self.subs[i];
            match &sub.current {
                Some(b) => {
                    if sub.cursor < b.keys.len() {
                        let better: bool = match best {
                            Some(k) => {
                                assert(has_head(tables, pos, k as int));
                                assert(self.subs@[k as int].wf());
                                assert(tables[k as int] == self.subs@[k as int].rows());
                                match &self.subs[k].current {
                                    Some(a) => !row_not_after(
                                        &a.keys[self.subs[k].cursor],
                                        a.stamps[self.subs[k].cursor],
                                        k,
                                        &b.keys[sub.cursor],
                                        b.stamps[sub.cursor],
                                        i,
                                    ),
                                    None => true,
                                }
                            },
                            None => true,
                        };
                        if better {
                            best = Some(i);
                        }
                    }
                },
                None => {},
            }
            i = i + 1;
        }
        best
    }

    /// The first source that needs a batch.
    fn find_needing(&self) -> (r: Option<usize>)
        requires
            self.wf(),
        ensures
            opt_int(r) == first_needing(self.subs@, 0),
    {
        let mut i: usize = 0;
        while i < self.subs.len()
            invariant
                i <= self.subs@.len(),
                self.wf(),
                first_needing(self.subs@, 0) == first_needing(self.subs@, i as int),
            decreases self.subs@.len() - i,
        {
            let sub: &SubSource = &self.subs[i];
            let left: bool = match &sub.current {
                Some(b) => sub.cursor < b.keys.len(),
                None => false,
            };
            if !sub.exhausted && !left && sub.pending.is_none() {
                return Some(i);
            }
            i = i + 1;
        }
        None
    }

    /// What the driver has to do after as many rows were picked as possible.
    pub open spec fn next_action(&self) -> MergeAction {
        if self.picks@.len() >= self.batch_target_rows {
            MergeAction::Emit
        } else {
            match first_needing(self.subs@, 0) {
                Some(i) => MergeAction::Pull(i as usize),
                None => if self.picks@.len() == 0 {
                    MergeAction::Done
                } else {
                    MergeAction::Emit
                },
            }
        }
    }

    /// Picks as many rows as possible and says what the driver has to do: pull a
    /// batch from the first source that needs one, collect the picked rows, or
    /// report the end.
    pub fn step(&mut self) -> (r: MergeAction)
        requires
            old(self).wf(),
        ensures
            stepped(*old(self), *final(self), r),
    {
        let ghost tables = self.tables();
        let ghost done = self.done();
        let ghost subs0 = self.subs@;
        let ghost target = self.batch_target_rows as nat;
        let ghost goal = settled(tables, done, self.pos(), pick_views(self.picks@), target);
        let rows: usize = self.batch_target_rows;
        while self.picks.len() < rows
            invariant_except_break
                goal == settled(tables, done, self.pos(), pick_views(self.picks@), target),
            invariant
                self.wf(),
                self.same_setup(old(self)),
                self.exhausted == old(self).exhausted,
                rows == target == self.batch_target_rows,
                only_moved(self.subs@, subs0),
                subs0 == old(self).subs@,
                self.tables() == tables,
                self.done() == done,
                tables == old(self).tables(),
                done == old(self).done(),
            ensures
                goal == (self.pos(), pick_views(self.picks@)),
            decreases rows - self.picks@.len(),
        {
            assert(pick_views(self.picks@).len() == self.picks@.len());
            if !self.sources_ready() {
                break;
            }
            match self.find_least() {
                Some(k) => {
                    let ghost before = *self;
                    proof {
                        lemma_least(tables, self.pos(), tables.len() as int);
                        assert(has_head(tables, self.pos(), k as int));
                        assert(self.subs@[k as int].wf());
                        assert(self.subs@[k as int].rows() == tables[k as int]);
                        lemma_ready_no_pending(*self);
                    }
                    let row: usize = self.subs[k].cursor;
                    let rows_at_hand: usize = match &self.subs[k].current {
                        Some(b) => b.keys.len(),
                        None => 0,
                    };
                    assert(row < rows_at_hand);
                    self.picks.push((k, row));
                    self.subs[k].cursor = row + 1;
                    proof {
                        assert(self.pos() =~= before.pos().update(k as int, row + 1));
                        assert(pick_views(self.picks@) =~= pick_views(before.picks@).push(
                            (k as int, row as int),
                        ));
                        assert forall|i: int| 0 <= i < self.subs@.len() implies (
                        #[trigger] self.subs@[i]).wf() && self.subs@[i].shows(
                            self.descriptors@[i],
                        ) by {
                            assert(before.subs@[i].wf());
                            assert(before.subs@[i].shows(self.descriptors@[i]));
                            assert(before.subs@[i].pending is None);
                        }
                        assert forall|p: int| 0 <= p < self.picks@.len() implies {
                            &&& (#[trigger] self.picks@[p]).0 < self.subs@.len()
                            &&& self.picks@[p].1 < self.subs@[self.picks@[p].0 as int].rows().len()
                        } by {
                            if p < before.picks@.len() {
                                assert(self.picks@[p] == before.picks@[p]);
                            }
                            let q = self.picks@[p].0 as int;
                            assert(self.subs@[q].rows() == before.subs@[q].rows());
                        }
                        assert(self.tables() =~= tables);
                        assert(self.done() =~= done);
                    }
                },
                None => {
                    break;
                },
            }
        }
        assert(pick_views(self.picks@).len() == self.picks@.len());
        if self.picks.len() >= rows {
            return MergeAction::Emit;
        }
        match self.find_needing() {
            Some(i) => MergeAction::Pull(i),
            None => {
                if self.picks.len() == 0 {
                    self.exhausted = true;
                    MergeAction::Done
                } else {
                    MergeAction::Emit
                }
            },
        }
    }

    /// Whether a batch of a source can be supplied: the source needs one, and the
    /// batch has the columns that order its rows and those that the result shows.
    pub open spec fn can_supply(&self, i: int, batch: Option<Batch>) -> bool {
        &&& 0 <= i < self.subs@.len()
        &&& self.subs@[i].needs_batch()
        &&& batch matches Some(b) ==> batch_view(b).rows == 0 || self.descriptors@[i].can_take(
            batch_view(b),
        )
    }

    /// Whether a batch has the columns that a source must have.
    pub fn can_take(&self, i: usize, batch: &Batch) -> (r: bool)
        requires
            i < self.descriptors@.len(),
        ensures
            r == (batch_view(*batch).rows == 0 || self.descriptors@[i as int].can_take(
                batch_view(*batch),
            )),
    {
        if num_rows(batch) == 0 {
            return true;
        }
        let desc: &SubSourceDesc = &self.descriptors[i];
        let n: usize = num_columns(batch);
        if desc.entity_key_col >= n || desc.ts_col >= n {
            return false;
        }
        let entity: ArrayData = column_at(batch, desc.entity_key_col);
        let kind: DataKind = data_kind(&entity);
        if kind != DataKind::Utf8View && kind != DataKind::Int64 {
            return false;
        }
        if null_count(&entity) > 0 {
            return false;
        }
        if data_kind(&column_at(batch, desc.ts_col)) != DataKind::TimestampNs {
            return false;
        }
        let mut o: usize = 0;
        while o < desc.reverse_col_map.len()
            invariant
                o <= desc.reverse_col_map@.len(),
                i < self.descriptors@.len(),
                *desc == self.descriptors@[i as int],
                batch_view(*batch).rows > 0,
                n == batch_view(*batch).columns.len(),
                forall|k: int|
                    0 <= k < o ==> ((#[trigger] desc.reverse_col_map@[k]) matches Some(c) ==> c < n),
            decreases desc.reverse_col_map@.len() - o,
        {
            match desc.reverse_col_map[o] {
                Some(c) => {
                    if c >= n {
                        assert(desc.reverse_col_map@[o as int] == Some(c));
                        return false;
                    }
                },
                None => {},
            }
            o = o + 1;
        }
        true
    }

    /// Supplies the batch that was pulled from a source, or that there is none. A
    /// batch without rows changes nothing. While picked rows are not collected,
    /// the batch waits.
    pub fn supply(&mut self, i: usize, batch: Option<Batch>)
        requires
            old(self).wf(),
            old(self).can_supply(i as int, batch),
        ensures
            supplied(*old(self), *final(self), i as int, batch),
    {
        assert(self.subs@[i as int].wf());
        match batch {
            None => {
                self.subs[i].exhausted = true;
            },
            Some(b) => {
                if num_rows(&b) == 0 {
                    return;
                }
                let loaded: LoadedBatch = self.descriptors[i].load(b);
                if self.picks.len() == 0 {
                    self.subs[i].current = Some(loaded);
                    self.subs[i].cursor = 0;
                } else {
                    self.subs[i].pending = Some(loaded);
                }
            },
        }
        proof {
            assert forall|j: int| 0 <= j < self.subs@.len() implies (#[trigger] self.subs@[j]).wf()
                && self.subs@[j].shows(self.descriptors@[j]) by {
                assert(old(self).subs@[j].wf());
                assert(old(self).subs@[j].shows(self.descriptors@[j]));
            }
            assert forall|p: int| 0 <= p < self.picks@.len() implies {
                &&& (#[trigger] self.picks@[p]).0 < self.subs@.len()
                &&& self.picks@[p].1 < self.subs@[self.picks@[p].0 as int].rows().len()
            } by {
                assert(old(self).picks@[p] == self.picks@[p]);
            }
            assert forall|j: int|
                0 <= j < self.subs@.len() && (#[trigger] self.subs@[j]).pending is Some implies
                self.picks@.len() > 0 by {
                let _ = old(self).subs@[j];
            }
        }
    }
}

/// While every source is ready, no batch waits.
proof fn lemma_ready_no_pending(op: MergeSourcesOperator)
    requires
        op.wf(),
        all_ready(op.tables(), op.done(), op.pos()),
    ensures
        forall|i: int| 0 <= i < op.subs@.len() ==> (#[trigger] op.subs@[i]).pending is None,
{
    assert forall|i: int| 0 <= i < op.subs@.len() implies (#[trigger] op.subs@[i]).pending is None by {
        assert(op.subs@[i].wf());
        assert(op.done()[i] || has_head(op.tables(), op.pos(), i));
    }
}

/// What column `o` of the result shows of a picked row.
pub open spec fn shown_cell(op: &MergeSourcesOperator, o: int, pick: (int, int)) -> Option<
    CellView,
> {
    if op.source_table_id_col == Some(o as usize) {
        Some(CellView::Int(pick.0 as i64))
    } else {
        match (op.descriptors@[pick.0].reverse_col_map@[o], op.subs@[pick.0].current) {
            (Some(c), Some(b)) => batch_view(b.batch).columns[c as int].cells[pick.1],
            _ => None,
        }
    }
}

/// What column `o` of the result shows of the picked rows.
pub open spec fn shown_cells(op: &MergeSourcesOperator, o: int) -> Seq<Option<CellView>> {
    Seq::new(op.picks@.len(), |p: int| shown_cell(op, o, pick_views(op.picks@)[p]))
}

/// Whether source `i` has the column that column `o` of the result shows.
pub open spec fn column_there(op: &MergeSourcesOperator, i: int, o: int) -> bool {
    match (op.descriptors@[i].reverse_col_map@[o], op.subs@[i].current) {
        (Some(c), Some(b)) => c < batch_view(b.batch).columns.len(),
        _ => true,
    }
}

/// The type of that column, or that of the result if source `i` has none.
pub open spec fn source_type(op: &MergeSourcesOperator, i: int, o: int) -> DataType {
    match (op.descriptors@[i].reverse_col_map@[o], op.subs@[i].current) {
        (Some(c), Some(b)) => batch_view(b.batch).columns[c as int].data_type,
        _ => op.output_fields@[o].data_type,
    }
}

/// Whether that column is of the type of the result.
pub open spec fn column_typed(op: &MergeSourcesOperator, i: int, o: int) -> bool {
    source_type(op, i, o) == op.output_fields@[o].data_type
}

/// Whether the sources show column `o` of the result in more than one type.
pub open spec fn mixed(op: &MergeSourcesOperator, o: int) -> bool {
    op.source_table_id_col != Some(o as usize) && exists|i: int|
        0 <= i < op.subs@.len() && #[trigger] source_type(op, i, o) != source_type(op, 0, o)
}

/// The first column of the result, from `o` on, that the sources show in more than one
/// type.
pub open spec fn first_mixed(op: &MergeSourcesOperator, o: int) -> Option<int>
    decreases op.output_fields@.len() - o,
{
    if o >= op.output_fields@.len() {
        None
    } else if mixed(op, o) {
        Some(o)
    } else {
        first_mixed(op, o + 1)
    }
}

/// Whether column `o` of the result can be put together.
pub open spec fn typed(op: &MergeSourcesOperator, o: int) -> bool {
    op.source_table_id_col == Some(o as usize) || forall|i: int|
        0 <= i < op.subs@.len() ==> #[trigger] column_typed(op, i, o)
}

/// The first column of the result, from `o` on, that cannot be put together.
pub open spec fn first_mistyped(op: &MergeSourcesOperator, o: int) -> Option<int>
    decreases op.output_fields@.len() - o,
{
    if o >= op.output_fields@.len() {
        None
    } else if !typed(op, o) {
        Some(o)
    } else {
        first_mistyped(op, o + 1)
    }
}

/// Whether no column of the result is null that must not be.
pub open spec fn nulls_allowed(op: &MergeSourcesOperator) -> bool {
    forall|o: int|
        0 <= o < op.output_fields@.len() ==> (#[trigger] op.output_fields@[o]).nullable
            || no_nulls(shown_cells(op, o))
}

/// How the error for a column that cannot be put together begins.
pub open spec fn mistyped_text(op: &MergeSourcesOperator, o: int) -> Seq<char> {
    "MergeSourcesOperator: interleave failed for output col "@ + decimal(o as nat) + " ("@
        + op.output_fields@[o].name + "): "@
}

/// Whether arrays are the first columns of the result.
spec fn are_shown(op: &MergeSourcesOperator, arrays: Seq<ArrayData>) -> bool {
    forall|k: int| 0 <= k < arrays.len() ==> is_shown(op, #[trigger] arrays[k], k)
}

/// Whether an array is column `o` of the result.
spec fn is_shown(op: &MergeSourcesOperator, a: ArrayData, o: int) -> bool {
    &&& typed(op, o)
    &&& array_view(a).data_type == op.output_fields@[o].data_type
    &&& array_view(a).cells == shown_cells(op, o)
}

/// A source after the picked rows were collected: a batch without rows left makes
/// place for the one that waits.
pub open spec fn renewed(s: SubSource) -> SubSource {
    if s.cursor < s.rows().len() {
        s
    } else {
        SubSource { current: s.pending, cursor: 0, pending: None, exhausted: s.exhausted }
    }
}

impl MergeSourcesOperator {
    /// The arrays that column `o` of the result is picked from, one for each
    /// source.
    fn source_arrays(&self, o: usize) -> (r: Vec<ArrayData>)
        requires
            self.wf(),
            o < self.output_fields@.len(),
            forall|i: int|
                0 <= i < self.subs@.len() ==> #[trigger] column_there(self, i, o as int),
        ensures
            r@.len() == self.subs@.len(),
            forall|i: int|
                0 <= i < r@.len() ==> {
                    &&& array_view(#[trigger] r@[i]).cells.len() == self.subs@[i].rows().len()
                    &&& array_view(r@[i]).data_type == source_type(self, i, o as int)
                    &&& match (
                        self.descriptors@[i].reverse_col_map@[o as int],
                        self.subs@[i].current,
                    ) {
                        (Some(c), Some(b)) => array_view(r@[i]) == batch_view(
                            b.batch,
                        ).columns[c as int],
                        _ => array_view(r@[i]).cells == Seq::new(
                            self.subs@[i].rows().len(),
                            |x: int| None::<CellView>,
                        ),
                    }
                },
    {
        let mut arrays: Vec<ArrayData> = Vec::new();
        let mut i: usize = 0;
        while i < self.subs.len()
            invariant
                i <= self.subs@.len(),
                self.wf(),
                o < self.output_fields@.len(),
                forall|j: int|
                    0 <= j < self.subs@.len() ==> #[trigger] column_there(self, j, o as int),
                arrays@.len() == i,
                forall|j: int|
                    0 <= j < i ==> {
                        &&& array_view(#[trigger] arrays@[j]).cells.len()
                            == self.subs@[j].rows().len()
                        &&& array_view(arrays@[j]).data_type == source_type(self, j, o as int)
                        &&& match (
                            self.descriptors@[j].reverse_col_map@[o as int],
                            self.subs@[j].current,
                        ) {
                            (Some(c), Some(b)) => array_view(arrays@[j]) == batch_view(
                                b.batch,
                            ).columns[c as int],
                            _ => array_view(arrays@[j]).cells == Seq::new(
                                self.subs@[j].rows().len(),
                                |x: int| None::<CellView>,
                            ),
                        }
                    },
            decreases self.subs@.len() - i,
        {
            proof {
                assert(column_there(self, i as int, o as int));
                assert(self.subs@[i as int].wf());
                let _ = self.descriptors@[i as int];
                assert(self.output_fields@[o as int] == self.output_fields.fields@[o as int]@);
            }
            let array: ArrayData = match &self.subs[i].current {
                Some(b) => match self.descriptors[i].reverse_col_map[o] {
                    Some(c) => column_at(&b.batch, c),
                    None => null_array(&self.output_fields.fields[o].data_type, b.keys.len()),
                },
                None => null_array(&self.output_fields.fields[o].data_type, 0),
            };
            arrays.push(array);
            i = i + 1;
        }
        arrays
    }

    /// Column `o` of the result; `None` where the sources show it in one type that is
    /// not that of the result.
    fn output_column(&self, o: usize) -> (r: Result<Option<ArrayData>, BqliteError>)
        requires
            self.wf(),
            o < self.output_fields@.len(),
            forall|i: int|
                0 <= i < self.subs@.len() ==> #[trigger] column_there(self, i, o as int),
        ensures
            match r {
                Ok(Some(a)) => {
                    &&& typed(self, o as int)
                    &&& array_view(a).data_type == self.output_fields@[o as int].data_type
                    &&& array_view(a).cells == shown_cells(self, o as int)
                },
                Ok(None) => !typed(self, o as int) && !mixed(self, o as int),
                Err(e) => {
                    &&& mixed(self, o as int)
                    &&& e is Execution
                    &&& has_prefix(e.text(), mistyped_text(self, o as int))
                },
            },
    {
        let ghost want = shown_cells(self, o as int);
        if self.source_table_id_col == Some(o) {
            let mut values: Vec<Option<i64>> = Vec::new();
            let mut p: usize = 0;
            while p < self.picks.len()
                invariant
                    p <= self.picks@.len(),
                    values@.len() == p,
                    forall|q: int|
                        0 <= q < p ==> #[trigger] values@[q] == Some(self.picks@[q].0 as i64),
                decreases self.picks@.len() - p,
            {
                values.push(Some(#[verifier::truncate] (self.picks[p].0 as i64)));
                p = p + 1;
            }
            proof {
                assert forall|q: int| 0 <= q < values@.len() implies int_cells(values@)[q]
                    == want[q] by {
                    let _ = values@[q];
                }
                assert(int_cells(values@) =~= want);
                assert(self.output_fields@[o as int].data_type == physical_type(BqlType::Int));
            }
            return Ok(Some(int64_array(values)));
        }
        let arrays: Vec<ArrayData> = self.source_arrays(o);
        let ghost views = array_views(arrays@);
        let ghost field_type = self.output_fields@[o as int].data_type;
        proof {
            assert forall|p: int| 0 <= p < self.picks@.len() implies (#[trigger] self.picks@[p]).0
                < arrays@.len() && self.picks@[p].1 < views[self.picks@[p].0 as int].cells.len() by {
                assert(views[self.picks@[p].0 as int] == array_view(
                    arrays@[self.picks@[p].0 as int],
                ));
            }
        }
        if !self.is_one_type(&arrays, o) {
            return Err(self.mistyped(o, "the columns of the sources are of different types"));
        }
        proof {
            assert(self.output_fields@[o as int] == self.output_fields.fields@[o as int]@);
            assert forall|i: int| 0 <= i < views.len() implies (#[trigger] views[i]).data_type
                == source_type(self, i, o as int) by {
                assert(views[i] == array_view(arrays@[i]));
            }
            assert forall|i: int| 0 <= i < views.len() implies (#[trigger] views[i]).data_type
                == views[0].data_type by {
                assert(source_type(self, i, o as int) == source_type(self, 0, o as int));
            }
        }
        if !has_type(&arrays[0], &self.output_fields.fields[o].data_type) {
            assert(!column_typed(self, 0, o as int));
            return Ok(None);
        }
        proof {
            assert forall|i: int| 0 <= i < self.subs@.len() implies #[trigger] column_typed(
                self,
                i,
                o as int,
            ) by {
                assert(views[i].data_type == views[0].data_type);
            }
        }
        match pick_rows(&arrays, &self.picks) {
            Ok(a) => {
                proof {
                    assert forall|p: int| 0 <= p < want.len() implies #[trigger] array_view(
                        a,
                    ).cells[p] == want[p] by {
                        let i = self.picks@[p].0 as int;
                        assert(views[i] == array_view(arrays@[i]));
                        assert(pick_views(self.picks@)[p] == (i, self.picks@[p].1 as int));
                    }
                    assert(array_view(a).cells =~= want);
                }
                Ok(Some(a))
            },
            Err(e) => Err(self.mistyped(o, arrow_text(&e).as_str())),
        }
    }

    /// Whether the sources show column `o` of the result in one type.
    fn is_one_type(&self, arrays: &Vec<ArrayData>, o: usize) -> (r: bool)
        requires
            self.wf(),
            self.source_table_id_col != Some(o),
            arrays@.len() == self.subs@.len(),
            forall|i: int|
                0 <= i < arrays@.len() ==> array_view(#[trigger] arrays@[i]).data_type
                    == source_type(self, i, o as int),
        ensures
            r == !mixed(self, o as int),
    {
        let first: DataType = type_of(&arrays[0]);
        let mut i: usize = 1;
        while i < arrays.len()
            invariant
                1 <= i <= arrays@.len(),
                arrays@.len() == self.subs@.len(),
                self.source_table_id_col != Some(o),
                first == source_type(self, 0, o as int),
                forall|j: int|
                    0 <= j < arrays@.len() ==> array_view(#[trigger] arrays@[j]).data_type
                        == source_type(self, j, o as int),
                forall|j: int| 0 <= j < i ==> #[trigger] source_type(self, j, o as int) == first,
            decreases arrays@.len() - i,
        {
            if !has_type(&arrays[i], &first) {
                assert(source_type(self, i as int, o as int) != source_type(self, 0, o as int));
                return false;
            }
            i = i + 1;
        }
        true
    }

    /// The error for a column that cannot be put together.
    fn mistyped(&self, o: usize, cause: &str) -> (e: BqliteError)
        requires
            o < self.output_fields@.len(),
        ensures
            e is Execution,
            has_prefix(e.text(), mistyped_text(self, o as int)),
    {
        let mut text: String = join2(
            "MergeSourcesOperator: interleave failed for output col ",
            decimal_text(o as u64).as_str(),
        );
        text.append(" (");
        text.append(self.output_fields.fields[o].name.as_str());
        text.append("): ");
        let ghost begin = text@;
        assert(self.output_fields@[o as int] == self.output_fields.fields@[o as int]@);
        text.append(cause);
        assert(text@.take(begin.len() as int) =~= begin);
        BqliteError::Execution(text)
    }
}

impl MergeSourcesOperator {
    /// Whether the picked rows can be put together.
    pub open spec fn collectable(&self) -> bool {
        &&& self.output_fields@.len() > 0
        &&& first_mistyped(self, 0) is None
        &&& nulls_allowed(self)
    }

    /// Collects the picked rows in a batch. Fails, and changes nothing, where the
    /// columns of the sources are not of the types of the result, or null where
    /// the result must not be.
    pub fn emit(&mut self) -> (r: Result<Batch, BqliteError>)
        requires
            old(self).wf(),
            old(self).picks@.len() > 0,
        ensures
            match r {
                Ok(b) => old(self).collectable() && collected(*old(self), *final(self), b),
                Err(e) => {
                    &&& !old(self).collectable()
                    &&& e is Execution
                    &&& has_prefix(
                        e.text(),
                        match first_mixed(old(self), 0) {
                            Some(o) => mistyped_text(old(self), o),
                            None => "MergeSourcesOperator: failed to assemble output batch: "@,
                        },
                    )
                    &&& *final(self) == *old(self)
                },
            },
    {
        let ghost fields = self.output_fields@;
        proof {
            assert forall|i: int, o: int|
                0 <= i < self.subs@.len() && 0 <= o < fields.len() implies #[trigger] column_there(
                self,
                i,
                o,
            ) by {
                assert(self.subs@[i].shows(self.descriptors@[i]));
                let _ = self.descriptors@[i].reverse_col_map@[o];
            }
        }
        let mut arrays: Vec<ArrayData> = Vec::new();
        let mut fits: bool = true;
        let mut o: usize = 0;
        while o < self.output_fields.fields.len()
            invariant
                o <= self.output_fields.fields@.len() == fields.len(),
                fields == self.output_fields@,
                *self == *old(self),
                self.wf(),
                forall|i: int, o: int|
                    0 <= i < self.subs@.len() && 0 <= o < self.output_fields@.len()
                        ==> #[trigger] column_there(self, i, o),
                first_mixed(self, 0) == first_mixed(self, o as int),
                !fits ==> first_mistyped(self, 0) is Some,
                fits ==> arrays@.len() == o,
                fits ==> are_shown(self, arrays@),
            decreases self.output_fields.fields@.len() - o,
        {
            assert forall|i: int| 0 <= i < self.subs@.len() implies #[trigger] column_there(
                self,
                i,
                o as int,
            ) by {}
            match self.output_column(o) {
                Ok(Some(a)) => {
                    assert(!mixed(self, o as int)) by {
                        lemma_typed_not_mixed(self, o as int);
                    }
                    arrays.push(a);
                },
                Ok(None) => {
                    proof {
                        lemma_first_mistyped(self, 0, o as int);
                    }
                    fits = false;
                },
                Err(e) => {
                    proof {
                        if typed(self, o as int) {
                            lemma_typed_not_mixed(self, o as int);
                        }
                        lemma_first_mistyped(self, 0, o as int);
                    }
                    return Err(e);
                },
            }
            o = o + 1;
        }
        if !fits {
            let begin: &str = "MergeSourcesOperator: failed to assemble output batch: ";
            let text: String = join2(begin, "a column is not of the type of its field");
            assert(text@.take(begin@.len() as int) =~= begin@);
            return Err(BqliteError::Execution(text));
        }
        let ghost views = array_views(arrays@);
        proof {
            lemma_collectable_buildable(self, arrays@);
        }
        match new_batch(&arrow_schema(&self.output_fields), arrays) {
            Ok(b) => {
                proof {
                    assert forall|k: int| 0 <= k < fields.len() implies {
                        &&& (#[trigger] batch_view(b).columns[k]).data_type == fields[k].data_type
                        &&& batch_view(b).columns[k].cells == shown_cells(self, k)
                    } by {
                        assert(views[k] == array_view(arrays@[k]));
                    }
                    assert(views[0] == array_view(arrays@[0]));
                }
                self.picks = Vec::new();
                self.renew_sources();
                Ok(b)
            },
            Err(e) => {
                let begin: &str = "MergeSourcesOperator: failed to assemble output batch: ";
                let text: String = join2(begin, arrow_text(&e).as_str());
                assert(text@.take(begin@.len() as int) =~= begin@);
                Err(BqliteError::Execution(text))
            },
        }
    }

    /// Lets the batches that wait take the place of those without rows left.
    fn renew_sources(&mut self)
        requires
            old(self).picks@.len() == 0,
            forall|i: int|
                0 <= i < old(self).subs@.len() ==> (#[trigger] old(self).subs@[i]).wf() && old(
                    self,
                ).subs@[i].shows(old(self).descriptors@[i]),
            old(self).base_wf(),
        ensures
            final(self).wf(),
            final(self).same_setup(old(self)),
            final(self).exhausted == old(self).exhausted,
            final(self).picks == old(self).picks,
            final(self).subs@ == Seq::new(
                old(self).subs@.len(),
                |i: int| renewed(old(self).subs@[i]),
            ),
    {
        let ghost before = self.subs@;
        let mut i: usize = 0;
        while i < self.subs.len()
            invariant
                i <= self.subs@.len() == before.len(),
                before == old(self).subs@,
                self.same_setup(old(self)),
                self.exhausted == old(self).exhausted,
                self.picks == old(self).picks,
                forall|j: int| 0 <= j < before.len() ==> (#[trigger] before[j]).wf(),
                forall|j: int| 0 <= j < i ==> #[trigger] self.subs@[j] == renewed(before[j]),
                forall|j: int| i <= j < before.len() ==> #[trigger] self.subs@[j] == before[j],
            decreases self.subs@.len() - i,
        {
            assert(before[i as int].wf());
            let left: bool = match &self.subs[i].current {
                Some(b) => self.subs[i].cursor < b.keys.len(),
                None => false,
            };
            if !left {
                let mut waiting: Option<LoadedBatch> = None;
                std::mem::swap(&mut waiting, &mut self.subs[i].pending);
                self.subs[i].current = waiting;
                self.subs[i].cursor = 0;
            }
            assert(self.subs@[i as int] == renewed(before[i as int]));
            i = i + 1;
        }
        assert(self.subs@ =~= Seq::new(before.len(), |i: int| renewed(before[i])));
        proof {
            assert forall|j: int| 0 <= j < self.subs@.len() implies (#[trigger] self.subs@[j]).wf()
                && self.subs@[j].shows(self.descriptors@[j]) by {
                assert(before[j] == old(self).subs@[j]);
                assert(self.subs@[j] == renewed(before[j]));
            }
        }
    }

    /// The operator is consistent, apart from its sources.
    pub open spec fn base_wf(&self) -> bool {
        &&& self.subs@.len() > 0
        &&& self.descriptors@.len() == self.subs@.len()
        &&& self.output_fields@ == schema_fields(self.output_schema@)
        &&& forall|o: int|
            0 <= o < self.output_fields@.len() ==> is_plain(
                type_kind((#[trigger] self.output_fields@[o]).data_type),
            )
        &&& forall|i: int|
            0 <= i < self.descriptors@.len() ==> (#[trigger] self.descriptors@[i]).reverse_col_map@.len()
                == self.output_schema@.len()
        &&& self.source_table_id_col matches Some(o) ==> o < self.output_schema@.len()
            && self.output_schema@[o as int].bql_type == BqlType::Int
        &&& self.batch_target_rows > 0
    }
}

/// A column in the type of the result is in one type.
proof fn lemma_typed_not_mixed(op: &MergeSourcesOperator, o: int)
    requires
        op.subs@.len() > 0,
        typed(op, o),
    ensures
        !mixed(op, o),
{
    if op.source_table_id_col != Some(o as usize) {
        assert(column_typed(op, 0, o));
        assert forall|i: int| 0 <= i < op.subs@.len() implies #[trigger] source_type(op, i, o)
            == source_type(op, 0, o) by {
            assert(column_typed(op, i, o));
        }
    }
}

proof fn lemma_first_mistyped(op: &MergeSourcesOperator, from: int, o: int)
    requires
        0 <= from <= o < op.output_fields@.len(),
        !typed(op, o),
    ensures
        first_mistyped(op, from) is Some,
    decreases o - from,
{
    if from < o && typed(op, from) {
        lemma_first_mistyped(op, from + 1, o);
    }
}

pub proof fn lemma_none_mistyped(op: &MergeSourcesOperator, from: int, o: int)
    requires
        0 <= from <= o < op.output_fields@.len(),
        first_mistyped(op, from) is None,
    ensures
        typed(op, o),
    decreases o - from,
{
    if from < o {
        lemma_none_mistyped(op, from + 1, o);
    }
}

pub proof fn lemma_all_typed(op: &MergeSourcesOperator, from: int)
    requires
        0 <= from,
        forall|o: int| from <= o < op.output_fields@.len() ==> #[trigger] typed(op, o),
    ensures
        first_mistyped(op, from) is None,
    decreases op.output_fields@.len() - from,
{
    if from < op.output_fields@.len() {
        assert(typed(op, from));
        lemma_all_typed(op, from + 1);
    }
}

/// The picked rows can be put together exactly where the columns make up a batch.
proof fn lemma_collectable_buildable(op: &MergeSourcesOperator, arrays: Seq<ArrayData>)
    requires
        arrays.len() == op.output_fields@.len(),
        are_shown(op, arrays),
    ensures
        op.collectable() <==> buildable(op.output_fields@, array_views(arrays)),
{
    let views = array_views(arrays);
    let fields = op.output_fields@;
    if op.collectable() {
        assert forall|k: int| 0 <= k < views.len() implies {
            &&& (#[trigger] views[k]).cells.len() == views[0].cells.len()
            &&& views[k].data_type == fields[k].data_type
            &&& fields[k].nullable || no_nulls(views[k].cells)
        } by {
            lemma_none_mistyped(op, 0, k);
            lemma_none_mistyped(op, 0, 0);
            assert(views[k] == array_view(arrays[k]));
            assert(views[0] == array_view(arrays[0]));
        }
    }
    if buildable(fields, views) {
        assert forall|o: int| 0 <= o < fields.len() implies #[trigger] typed(op, o) by {
            assert(views[o] == array_view(arrays[o]));
        }
        lemma_all_typed(op, 0);
        assert forall|o: int| 0 <= o < fields.len() implies (#[trigger] fields[o]).nullable
            || no_nulls(shown_cells(op, o)) by {
            assert(views[o] == array_view(arrays[o]));
            assert(typed(op, o));
        }
    }
}

/// What is wrong with the description of the sources.
pub enum SetupFault {
    NoSources,
    Lengths,
    NoEntity(int),
    NoTime(int),
    SourceId(BqlType),
    Keys(int),
}

/// What describes the sources: their columns, and for each the names of its entity
/// column, of its time column and of its table.
pub struct SetupView {
    pub sources: Seq<Seq<ColumnView>>,
    pub entities: Seq<Seq<char>>,
    pub times: Seq<Seq<char>>,
    pub tables: Seq<Seq<char>>,
    pub output: Seq<ColumnView>,
}

/// The contents of a list of schemas.
pub open spec fn schema_views(list: Seq<OperatorSchema>) -> Seq<Seq<ColumnView>> {
    Seq::new(list.len(), |i: int| list[i]@)
}

/// The first source, from `i` on, without its entity or its time column.
pub open spec fn first_missing(v: SetupView, i: int) -> Option<SetupFault>
    decreases v.sources.len() - i,
{
    if i >= v.sources.len() {
        None
    } else if column_position(v.sources[i], v.entities[i], 0) is None {
        Some(SetupFault::NoEntity(i))
    } else if column_position(v.sources[i], v.times[i], 0) is None {
        Some(SetupFault::NoTime(i))
    } else {
        first_missing(v, i + 1)
    }
}

/// Whether the rows of a source can be ordered: its entity column is text or an
/// integer, and its time column holds timestamps.
pub open spec fn orderable(v: SetupView, i: int) -> bool {
    let entity = v.sources[i][column_position(v.sources[i], v.entities[i], 0)->0].bql_type;
    let time = v.sources[i][column_position(v.sources[i], v.times[i], 0)->0].bql_type;
    (entity == BqlType::String || entity == BqlType::Int) && time == BqlType::Timestamp
}

/// The first source, from `i` on, whose rows cannot be ordered.
pub open spec fn first_unordered(v: SetupView, i: int) -> Option<SetupFault>
    decreases v.sources.len() - i,
{
    if i >= v.sources.len() {
        None
    } else if !orderable(v, i) {
        Some(SetupFault::Keys(i))
    } else {
        first_unordered(v, i + 1)
    }
}

/// What is wrong with the description of the sources.
pub open spec fn setup_fault(v: SetupView) -> Option<SetupFault> {
    let n = v.sources.len();
    let id = column_position(v.output, SOURCE_TABLE_ID_COLUMN@, 0);
    if n == 0 {
        Some(SetupFault::NoSources)
    } else if v.entities.len() != n || v.times.len() != n || v.tables.len() != n {
        Some(SetupFault::Lengths)
    } else if first_missing(v, 0) is Some {
        first_missing(v, 0)
    } else if id is Some && v.output[id->0].bql_type != BqlType::Int {
        Some(SetupFault::SourceId(v.output[id->0].bql_type))
    } else {
        first_unordered(v, 0)
    }
}

/// How the errors about a source begin.
pub open spec fn source_text(i: int, table: Seq<char>) -> Seq<char> {
    "MergeSourcesOperator: sub-scan "@ + decimal(i as nat) + " ("@ + table + ")"@
}

/// The name of a type.
pub open spec fn logical_name(t: BqlType) -> Seq<char> {
    match t {
        BqlType::String => "String"@,
        BqlType::Int => "Int"@,
        BqlType::Float => "Float"@,
        BqlType::Bool => "Bool"@,
        BqlType::Timestamp => "Timestamp"@,
    }
}

/// Whether an error says what is wrong with the description of the sources.
pub open spec fn says(e: BqliteError, v: SetupView, fault: SetupFault) -> bool {
    match fault {
        SetupFault::NoSources => e is Execution && e.text()
            == "MergeSourcesOperator: at least one sub-scan is required"@,
        SetupFault::Lengths => e is Execution && e.text()
            == "MergeSourcesOperator: parallel-vec length mismatch: ops="@ + decimal(
            v.sources.len(),
        ) + ", entity_key_cols="@ + decimal(v.entities.len()) + ", ts_cols="@ + decimal(
            v.times.len(),
        ) + ", table_id_map="@ + decimal(v.tables.len()),
        SetupFault::NoEntity(i) => e is Schema && e.text() == source_text(i, v.tables[i])
            + " missing entity-key column `"@ + v.entities[i] + "`"@,
        SetupFault::NoTime(i) => e is Schema && e.text() == source_text(i, v.tables[i])
            + " missing ts column `"@ + v.times[i] + "`"@,
        SetupFault::SourceId(t) => e is Schema && e.text()
            == "MergeSourcesOperator: `__source_table_id` must be Int, got "@ + logical_name(t),
        SetupFault::Keys(i) => e is Execution && has_prefix(
            e.text(),
            source_text(i, v.tables[i]) + " key-type validation failed: "@,
        ),
    }
}

fn type_text(t: BqlType) -> (r: &'static str)
    ensures
        r@ == logical_name(t),
{
    match t {
        BqlType::String => "String",
        BqlType::Int => "Int",
        BqlType::Float => "Float",
        BqlType::Bool => "Bool",
        BqlType::Timestamp => "Timestamp",
    }
}

/// How the errors about a source begin.
fn source_label(i: usize, table: &str) -> (r: String)
    ensures
        r@ == source_text(i as int, table@),
{
    let mut text: String = join2(
        "MergeSourcesOperator: sub-scan ",
        decimal_text(i as u64).as_str(),
    );
    text.append(" (");
    text.append(table);
    text.append(")");
    text
}

/// Maps the columns of a source to those of the result.
fn describe_source(
    table: &str,
    source: &OperatorSchema,
    output: &OperatorSchema,
    entity_key_col: usize,
    ts_col: usize,
    Ghost(entity): Ghost<Seq<char>>,
    Ghost(time): Ghost<Seq<char>>,
) -> (r: SubSourceDesc)
    requires
        Some(entity_key_col as int) == column_position(source@, entity, 0),
        Some(ts_col as int) == column_position(source@, time, 0),
    ensures
        r.describes(table@, source@, output@, entity, time),
{
    let n: usize = output.columns.len();
    let mut reverse_col_map: Vec<Option<usize>> = Vec::new();
    let mut o: usize = 0;
    while o < n
        invariant
            o <= n,
            reverse_col_map@.len() == o,
            forall|k: int| 0 <= k < o ==> (#[trigger] reverse_col_map@[k]) is None,
        decreases n - o,
    {
        reverse_col_map.push(None);
        o = o + 1;
    }
    let mut col_map: Vec<Option<usize>> = Vec::new();
    let mut c: usize = 0;
    while c < source.columns.len()
        invariant
            c <= source.columns@.len(),
            n == output@.len(),
            col_map@.len() == c,
            forall|k: int|
                0 <= k < c ==> opt_int(#[trigger] col_map@[k]) == shown_in(
                    table@,
                    source@,
                    output@,
                    k,
                ),
            reverse_col_map@.len() == n,
            forall|k: int|
                0 <= k < n ==> opt_int(#[trigger] reverse_col_map@[k]) == shows_column(
                    table@,
                    source@,
                    output@,
                    k,
                    c as int,
                ),
        decreases source.columns@.len() - c,
    {
        let col: &ColumnDef = &source.columns[c];
        assert(source@[c as int] == col@);
        let name: String = if col.is_system() {
            col.name.clone()
        } else {
            join3(table, ".", col.name.as_str())
        };
        let found: Option<usize> = find_column(&output.columns, name.as_str());
        col_map.push(found);
        match found {
            Some(k) => {
                reverse_col_map.set(k, Some(c));
            },
            None => {},
        }
        c = c + 1;
    }
    SubSourceDesc { entity_key_col, ts_col, col_map, reverse_col_map }
}

impl MergeSourcesOperator {
    /// The operator for some sources, given the columns of each, the names of its
    /// entity column, its time column and its table, and the columns of the
    /// result.
    pub fn new(
        sub_schemas: &Vec<OperatorSchema>,
        sub_entity_key_cols: &Vec<String>,
        sub_ts_cols: &Vec<String>,
        output_schema: OperatorSchema,
        table_id_map: &Vec<String>,
    ) -> (r: Result<Self, BqliteError>)
        ensures
            ({
                let v = SetupView {
                    sources: schema_views(sub_schemas@),
                    entities: text_views(sub_entity_key_cols@),
                    times: text_views(sub_ts_cols@),
                    tables: text_views(table_id_map@),
                    output: output_schema@,
                };
                match r {
                    Ok(op) => {
                        &&& setup_fault(v) is None
                        &&& op.wf()
                        &&& op.subs@.len() == sub_schemas@.len()
                        &&& forall|i: int|
                            0 <= i < op.subs@.len() ==> #[trigger] op.subs@[i] == fresh_source()
                        &&& forall|i: int|
                            0 <= i < op.subs@.len() ==> (#[trigger] op.descriptors@[i]).describes(
                                v.tables[i],
                                v.sources[i],
                                v.output,
                                v.entities[i],
                                v.times[i],
                            )
                        &&& op.output_schema == output_schema
                        &&& opt_int(op.source_table_id_col) == column_position(
                            v.output,
                            SOURCE_TABLE_ID_COLUMN@,
                            0,
                        )
                        &&& op.batch_target_rows == MERGE_SOURCES_BATCH_ROWS
                        &&& op.picks@.len() == 0
                        &&& !op.exhausted
                        &&& !op.opened
                    },
                    Err(e) => setup_fault(v) matches Some(fault) && says(e, v, fault),
                }
            }),
    {
        let ghost v = SetupView {
            sources: schema_views(sub_schemas@),
            entities: text_views(sub_entity_key_cols@),
            times: text_views(sub_ts_cols@),
            tables: text_views(table_id_map@),
            output: output_schema@,
        };
        let n: usize = sub_schemas.len();
        proof {
            assert(v.sources.len() == n);
            assert(v.entities.len() == sub_entity_key_cols@.len());
            assert(v.times.len() == sub_ts_cols@.len());
            assert(v.tables.len() == table_id_map@.len());
        }
        if n == 0 {
            return Err(
                BqliteError::Execution(
                    "MergeSourcesOperator: at least one sub-scan is required".to_owned(),
                ),
            );
        }
        if n != sub_entity_key_cols.len() || n != sub_ts_cols.len() || n != table_id_map.len() {
            let mut text: String = join2(
                "MergeSourcesOperator: parallel-vec length mismatch: ops=",
                decimal_text(n as u64).as_str(),
            );
            text.append(", entity_key_cols=");
            text.append(decimal_text(sub_entity_key_cols.len() as u64).as_str());
            text.append(", ts_cols=");
            text.append(decimal_text(sub_ts_cols.len() as u64).as_str());
            text.append(", table_id_map=");
            text.append(decimal_text(table_id_map.len() as u64).as_str());
            return Err(BqliteError::Execution(text));
        }
        let mut descriptors: Vec<SubSourceDesc> = Vec::new();
        let mut subs: Vec<SubSource> = Vec::new();
        let mut i: usize = 0;
        while i < n
            invariant
                i <= n,
                n == sub_schemas@.len() == sub_entity_key_cols@.len() == sub_ts_cols@.len()
                    == table_id_map@.len(),
                n > 0,
                v == (SetupView {
                    sources: schema_views(sub_schemas@),
                    entities: text_views(sub_entity_key_cols@),
                    times: text_views(sub_ts_cols@),
                    tables: text_views(table_id_map@),
                    output: output_schema@,
                }),
                first_missing(v, 0) == first_missing(v, i as int),
                descriptors@.len() == i,
                subs@.len() == i,
                forall|k: int| 0 <= k < i ==> #[trigger] subs@[k] == fresh_source(),
                forall|k: int|
                    0 <= k < i ==> (#[trigger] descriptors@[k]).describes(
                        v.tables[k],
                        v.sources[k],
                        v.output,
                        v.entities[k],
                        v.times[k],
                    ),
            decreases n - i,
        {
            let source: &OperatorSchema = &sub_schemas[i];
            let table: &str = table_id_map[i].as_str();
            let entity: &str = sub_entity_key_cols[i].as_str();
            let time: &str = sub_ts_cols[i].as_str();
            assert(v.sources[i as int] == source@);
            assert(v.tables[i as int] == table@);
            assert(v.entities[i as int] == entity@);
            assert(v.times[i as int] == time@);
            let entity_key_col: usize = match find_column(&source.columns, entity) {
                Some(k) => k,
                None => {
                    let mut text: String = source_label(i, table);
                    text.append(" missing entity-key column `");
                    text.append(entity);
                    text.append("`");
                    return Err(BqliteError::Schema(text));
                },
            };
            let ts_col: usize = match find_column(&source.columns, time) {
                Some(k) => k,
                None => {
                    let mut text: String = source_label(i, table);
                    text.append(" missing ts column `");
                    text.append(time);
                    text.append("`");
                    return Err(BqliteError::Schema(text));
                },
            };
            descriptors.push(
                describe_source(
                    table,
                    source,
                    &output_schema,
                    entity_key_col,
                    ts_col,
                    Ghost(entity@),
                    Ghost(time@),
                ),
            );
            subs.push(
                SubSource { current: None, cursor: 0, pending: None, exhausted: false },
            );
            i = i + 1;
        }
        let source_table_id_col: Option<usize> = find_column(
            &output_schema.columns,
            SOURCE_TABLE_ID_COLUMN,
        );
        match source_table_id_col {
            Some(k) => {
                assert(v.output[k as int] == output_schema.columns@[k as int]@);
                if output_schema.columns[k].bql_type != BqlType::Int {
                    return Err(
                        BqliteError::Schema(
                            join2(
                                "MergeSourcesOperator: `__source_table_id` must be Int, got ",
                                type_text(output_schema.columns[k].bql_type),
                            ),
                        ),
                    );
                }
            },
            None => {},
        }
        let mut j: usize = 0;
        while j < n
            invariant
                j <= n,
                n == sub_schemas@.len() == table_id_map@.len() == descriptors@.len(),
                v == (SetupView {
                    sources: schema_views(sub_schemas@),
                    entities: text_views(sub_entity_key_cols@),
                    times: text_views(sub_ts_cols@),
                    tables: text_views(table_id_map@),
                    output: output_schema@,
                }),
                setup_fault(v) == first_unordered(v, j as int),
                forall|k: int|
                    0 <= k < n ==> (#[trigger] descriptors@[k]).describes(
                        v.tables[k],
                        v.sources[k],
                        v.output,
                        v.entities[k],
                        v.times[k],
                    ),
            decreases n - j,
        {
            let desc: &SubSourceDesc = &descriptors[j];
            let source: &OperatorSchema = &sub_schemas[j];
            proof {
                assert(v.sources[j as int] == source@);
                assert(v.tables[j as int] == table_id_map@[j as int]@);
                assert(descriptors@[j as int] == *desc);
                lemma_found_range(source@, v.entities[j as int]);
                lemma_found_range(source@, v.times[j as int]);
                assert(source@[desc.entity_key_col as int]
                    == source.columns@[desc.entity_key_col as int]@);
                assert(source@[desc.ts_col as int] == source.columns@[desc.ts_col as int]@);
            }
            let entity_type: BqlType = source.columns[desc.entity_key_col].bql_type;
            let time_type: BqlType = source.columns[desc.ts_col].bql_type;
            if entity_type != BqlType::String && entity_type != BqlType::Int {
                return Err(
                    key_error(
                        j,
                        table_id_map[j].as_str(),
                        "the entity key must be text or an integer",
                    ),
                );
            }
            if time_type != BqlType::Timestamp {
                return Err(
                    key_error(j, table_id_map[j].as_str(), "the time must be a timestamp"),
                );
            }
            j = j + 1;
        }
        let output_fields: SchemaSpec = to_schema_spec(&output_schema);
        let op = MergeSourcesOperator {
            subs,
            descriptors,
            output_fields,
            source_table_id_col,
            batch_target_rows: MERGE_SOURCES_BATCH_ROWS,
            picks: Vec::new(),
            exhausted: false,
            opened: false,
            output_schema,
        };
        proof {
            assert forall|o: int| 0 <= o < op.output_fields@.len() implies is_plain(
                type_kind((#[trigger] op.output_fields@[o]).data_type),
            ) by {
                assert(op.output_fields@[o] == op.output_fields.fields@[o]@);
            }
            assert forall|k: int| 0 <= k < op.subs@.len() implies (#[trigger] op.subs@[k]).wf() by {
                assert(op.subs@[k] == fresh_source());
            }
            assert forall|k: int|
                0 <= k < op.subs@.len() && (#[trigger] op.subs@[k]).pending is Some implies
                op.picks@.len() > 0 by {
                assert(op.subs@[k] == fresh_source());
            }
        }
        Ok(op)
    }

    /// The same operator with another number of rows per batch.
    pub fn with_batch_size(self, batch_target_rows: usize) -> (r: Self)
        requires
            self.wf(),
            self.picks@.len() == 0,
            batch_target_rows > 0,
        ensures
            r == (MergeSourcesOperator { batch_target_rows, ..self }),
            r.wf(),
    {
        let mut r = self;
        r.batch_target_rows = batch_target_rows;
        r
    }

    /// The columns of the result.
    pub fn output_schema(&self) -> (r: &OperatorSchema)
        ensures
            *r == self.output_schema,
    {
        &self.output_schema
    }

    /// Opens the operator, given what opening each source returned: `None`, or the
    /// error. Fails at the first source that failed. Opening it again does
    /// nothing.
    pub fn open(&mut self, failures: &Vec<Option<BqliteError>>) -> (r: Result<(), BqliteError>)
        ensures
            old(self).opened ==> r is Ok && *final(self) == *old(self),
            !old(self).opened ==> match first_failure(failures@, 0) {
                Some(i) => *final(self) == *old(self) && r == Err::<(), BqliteError>(r->Err_0)
                    && r->Err_0 is Execution && r->Err_0.text()
                    == "MergeSourcesOperator: sub-scan "@ + decimal(i as nat) + " open failed: "@
                    + failures@[i]->0.text(),
                None => r is Ok && *final(self) == (MergeSourcesOperator {
                    opened: true,
                    ..*old(self)
                }),
            },
    {
        if self.opened {
            return Ok(());
        }
        match find_failure(failures, " open failed: ") {
            Some(e) => Err(e),
            None => {
                self.opened = true;
                Ok(())
            },
        }
    }

    /// Whether there is a batch to be asked for, where `cancelled` is what a read of
    /// the cancellation token returned. A merge that has come to its end stays there,
    /// even when it was cancelled.
    pub fn begin(&self, cancelled: bool) -> (r: Result<bool, BqliteError>)
        ensures
            if self.exhausted {
                r == Ok::<bool, BqliteError>(false)
            } else if cancelled {
                r == Err::<bool, BqliteError>(BqliteError::Cancelled)
            } else if !self.opened {
                r matches Err(e) && e is Execution && e.text()
                    == "MergeSourcesOperator::next_batch called before open"@
            } else {
                r == Ok::<bool, BqliteError>(true)
            },
    {
        if self.exhausted {
            return Ok(false);
        }
        if cancelled {
            return Err(BqliteError::Cancelled);
        }
        if !self.opened {
            return Err(
                BqliteError::Execution(
                    "MergeSourcesOperator::next_batch called before open".to_owned(),
                ),
            );
        }
        Ok(true)
    }

    /// Closes the operator, given what closing each source returned: `None`, or the
    /// error. Fails with the first error, after letting go of everything. Closing
    /// an operator that is not open does nothing.
    pub fn close(&mut self, failures: &Vec<Option<BqliteError>>) -> (r: Result<(), BqliteError>)
        requires
            old(self).wf(),
        ensures
            final(self).wf(),
            !old(self).opened ==> r is Ok && *final(self) == *old(self),
            old(self).opened ==> {
                &&& !final(self).opened
                &&& final(self).exhausted
                &&& final(self).picks@.len() == 0
                &&& final(self).subs@ == Seq::new(
                    old(self).subs@.len(),
                    |i: int|
                        SubSource { current: None, cursor: 0, pending: None, exhausted: true },
                )
                &&& match first_failure(failures@, 0) {
                    Some(i) => r matches Err(e) && e is Execution && e.text()
                        == "MergeSourcesOperator: sub-scan "@ + decimal(i as nat)
                        + " close failed: "@ + failures@[i]->0.text(),
                    None => r is Ok,
                }
            },
    {
        if !self.opened {
            return Ok(());
        }
        self.picks = Vec::new();
        let ghost n0 = self.subs@.len();
        let mut i: usize = 0;
        while i < self.subs.len()
            invariant
                i <= self.subs@.len() == n0,
                n0 == old(self).subs@.len(),
                self.same_setup(old(self)),
                self.picks@.len() == 0,
                forall|j: int|
                    0 <= j < i ==> #[trigger] self.subs@[j] == (SubSource {
                        current: None,
                        cursor: 0,
                        pending: None,
                        exhausted: true,
                    }),
            decreases self.subs@.len() - i,
        {
            self.subs[i].current = None;
            self.subs[i].cursor = 0;
            self.subs[i].pending = None;
            self.subs[i].exhausted = true;
            i = i + 1;
        }
        self.exhausted = true;
        self.opened = false;
        proof {
            assert forall|j: int| 0 <= j < self.subs@.len() implies (#[trigger] self.subs@[j]).wf() by {
            }
            assert(self.subs@ =~= Seq::new(
                n0,
                |i: int| SubSource { current: None, cursor: 0, pending: None, exhausted: true },
            ));
        }
        match find_failure(failures, " close failed: ") {
            Some(e) => Err(e),
            None => Ok(()),
        }
    }
}

/// A source of which nothing was pulled.
pub open spec fn fresh_source() -> SubSource {
    SubSource { current: None, cursor: 0, pending: None, exhausted: false }
}

/// The first failure, from `i` on.
pub open spec fn first_failure(failures: Seq<Option<BqliteError>>, i: int) -> Option<int>
    decreases failures.len() - i,
{
    if i >= failures.len() {
        None
    } else if failures[i] is Some {
        Some(i)
    } else {
        first_failure(failures, i + 1)
    }
}

/// The error for the first failure.
fn find_failure(failures: &Vec<Option<BqliteError>>, what: &str) -> (r: Option<BqliteError>)
    ensures
        match (r, first_failure(failures@, 0)) {
            (Some(e), Some(i)) => e is Execution && e.text()
                == "MergeSourcesOperator: sub-scan "@ + decimal(i as nat) + what@
                + failures@[i]->0.text(),
            (None, None) => true,
            _ => false,
        },
{
    let mut i: usize = 0;
    while i < failures.len()
        invariant
            i <= failures@.len(),
            first_failure(failures@, 0) == first_failure(failures@, i as int),
        decreases failures@.len() - i,
    {
        match &failures[i] {
            Some(e) => {
                let mut text: String = join2(
                    "MergeSourcesOperator: sub-scan ",
                    decimal_text(i as u64).as_str(),
                );
                text.append(what);
                text.append(e.message().as_str());
                return Some(BqliteError::Execution(text));
            },
            None => {},
        }
        i = i + 1;
    }
    None
}

/// The error for a source whose rows cannot be ordered.
fn key_error(i: usize, table: &str, cause: &str) -> (e: BqliteError)
    ensures
        e is Execution,
        has_prefix(e.text(), source_text(i as int, table@) + " key-type validation failed: "@),
{
    let mut text: String = source_label(i, table);
    text.append(" key-type validation failed: ");
    let ghost begin = text@;
    text.append(cause);
    assert(text@.take(begin.len() as int) =~= begin);
    BqliteError::Execution(text)
}

proof fn lemma_found_range(columns: Seq<ColumnView>, name: Seq<char>)
    ensures
        column_position(columns, name, 0) matches Some(k) ==> 0 <= k < columns.len(),
{
    crate::schema::lemma_column_position(columns, name, 0);
}

/// Whether what is at hand of each source is a part of its stream: `tables` begins
/// at `off`, and reaches to the end where the source has no more batches.
pub open spec fn windows(
    streams: Seq<Seq<RowKey>>,
    off: Seq<int>,
    tables: Seq<Seq<RowKey>>,
    done: Seq<bool>,
    pos: Seq<int>,
) -> bool {
    &&& streams.len() == off.len() == tables.len() == done.len() == pos.len()
    &&& forall|i: int|
        0 <= i < streams.len() ==> {
            &&& 0 <= #[trigger] off[i]
            &&& off[i] + tables[i].len() <= streams[i].len()
            &&& tables[i] == streams[i].subrange(off[i], off[i] + tables[i].len())
            &&& done[i] ==> off[i] + tables[i].len() == streams[i].len()
            &&& 0 <= pos[i] <= tables[i].len()
        }
}

/// The positions in the streams.
pub open spec fn in_streams(off: Seq<int>, pos: Seq<int>) -> Seq<int> {
    Seq::new(off.len(), |i: int| off[i] + pos[i])
}

proof fn lemma_same_least(
    streams: Seq<Seq<RowKey>>,
    off: Seq<int>,
    tables: Seq<Seq<RowKey>>,
    done: Seq<bool>,
    pos: Seq<int>,
    n: int,
)
    requires
        windows(streams, off, tables, done, pos),
        all_ready(tables, done, pos),
        0 <= n <= streams.len(),
    ensures
        least(tables, pos, n) == least(streams, in_streams(off, pos), n),
    decreases n,
{
    if n > 0 {
        lemma_same_least(streams, off, tables, done, pos, n - 1);
        let p = in_streams(off, pos);
        let i = n - 1;
        assert(0 <= off[i]);
        assert(done[i] || has_head(tables, pos, i));
        assert(has_head(tables, pos, i) == has_head(streams, p, i));
        if has_head(tables, pos, i) {
            assert(head(tables, pos, i) == head(streams, p, i));
        }
        lemma_least(tables, pos, n - 1);
        if let Some(k) = least(tables, pos, n - 1) {
            assert(0 <= off[k]);
            assert(has_head(tables, pos, k));
            assert(head(tables, pos, k) == head(streams, p, k));
        }
    }
}

proof fn lemma_taken_shift(streams: Seq<Seq<RowKey>>, pos: Seq<int>, n: nat)
    ensures
        taken_n(streams, taken(streams, pos), n) == taken_n(streams, pos, n + 1),
    decreases n,
{
    if n > 0 {
        lemma_taken_shift(streams, pos, (n - 1) as nat);
    } else {
        assert(taken_n(streams, pos, 0) == pos);
    }
}

/// The operator picks the rows of its sources in merge order: however the streams
/// are divided into batches, what it picks next is what comes next in the merged
/// streams.
pub proof fn theorem_picks_in_merge_order(
    streams: Seq<Seq<RowKey>>,
    off: Seq<int>,
    tables: Seq<Seq<RowKey>>,
    done: Seq<bool>,
    pos: Seq<int>,
    picks: Seq<(int, int)>,
    target: nat,
)
    requires
        windows(streams, off, tables, done, pos),
    ensures
        ({
            let (pos2, picks2) = settled(tables, done, pos, picks, target);
            let start = in_streams(off, pos);
            &&& picks.len() <= picks2.len()
            &&& picks2.take(picks.len() as int) == picks
            &&& forall|t: int|
                picks.len() <= t < picks2.len() ==> merged_row(
                    streams,
                    start,
                    (t - picks.len()) as nat,
                ) == Some(
                    ((#[trigger] picks2[t]).0, off[picks2[t].0] + picks2[t].1),
                )
            &&& in_streams(off, pos2) == taken_n(
                streams,
                start,
                (picks2.len() - picks.len()) as nat,
            )
            &&& windows(streams, off, tables, done, pos2)
        }),
    decreases target - picks.len(),
{
    let n = tables.len() as int;
    let start = in_streams(off, pos);
    let (pos2, picks2) = settled(tables, done, pos, picks, target);
    if picks.len() >= target || !all_ready(tables, done, pos) || least(tables, pos, n) is None {
        assert(picks2.take(picks.len() as int) =~= picks);
    } else {
        let k = least(tables, pos, n)->0;
        let next = pos.update(k, pos[k] + 1);
        let more = picks.push((k, pos[k]));
        lemma_least(tables, pos, n);
        assert(has_head(tables, pos, k));
        lemma_same_least(streams, off, tables, done, pos, n);
        assert(windows(streams, off, tables, done, next)) by {
            assert forall|i: int| 0 <= i < streams.len() implies {
                &&& 0 <= #[trigger] off[i]
                &&& off[i] + tables[i].len() <= streams[i].len()
                &&& tables[i] == streams[i].subrange(off[i], off[i] + tables[i].len())
                &&& done[i] ==> off[i] + tables[i].len() == streams[i].len()
                &&& 0 <= next[i] <= tables[i].len()
            } by {}
        }
        theorem_picks_in_merge_order(streams, off, tables, done, next, more, target);
        assert(in_streams(off, next) =~= taken(streams, start));
        assert(picks2.take(picks.len() as int) =~= picks) by {
            assert(picks2.take(more.len() as int).take(picks.len() as int) =~= picks2.take(
                picks.len() as int,
            ));
            assert(more.take(picks.len() as int) =~= picks);
        }
        assert forall|t: int| picks.len() <= t < picks2.len() implies merged_row(
            streams,
            start,
            (t - picks.len()) as nat,
        ) == Some(((#[trigger] picks2[t]).0, off[picks2[t].0] + picks2[t].1)) by {
            if t == picks.len() {
                assert(picks2[t] == picks2.take(more.len() as int)[t]);
                assert(taken_n(streams, start, 0) == start);
            } else {
                lemma_taken_shift(streams, start, (t - more.len()) as nat);
            }
        }
        lemma_taken_shift(streams, start, (picks2.len() - more.len()) as nat);
    }
}

} // verus!
