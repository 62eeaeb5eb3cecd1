//! The sessionize operator: tells apart the sessions of an entity.
//!
//! A session ends when more than a gap passes without an event, or after an
//! event of one of the end types. An end event belongs to the session that it
//! closes. When both happen on one event, the gap closes the session before the
//! event, and the event is a session of its own. Session ids count from 1 for
//! every entity, and every event of a session carries its duration, the time
//! from its first to its last event.
//!
//! Only the columns that are needed downstream are kept while a session is
//! open; the others are null in the result. An open session may have a limited
//! number of events. Over the limit the session is closed and the rest of the
//! entity is skipped.

use std::collections::HashSet;

use arrow::array::ArrayData;
use arrow::datatypes::DataType;
use vstd::prelude::*;
use vstd::string::*;

use crate::columnar::{ArrayView, Batch, BatchView, CellView, DataKind, FieldSpec, FieldView,
    SchemaSpec, all_plain, array_view, array_views, arrow_schema, batch_view, batch_views,
    buildable, column_at, column_buffers, conforms, convert_array, converted_cells, data_kind,
    dict_int32, empty_batch, entry_cell, entry_type, has_room, int64_array, int_cells,
    is_plain, join_batches, joined_cells, new_batch, no_nulls, null_array, null_count, num_columns,
    num_rows, physical_type, schema_fields, slice_array, string_values, string_view_values,
    text_cells, timestamp_values, to_physical, to_schema_spec, total_rows, type_kind};
use crate::error::{BqliteError, QueryWarning};
use crate::operator::{Accumulator, DemandCapabilities, EntityOperator, no_capabilities};
use crate::schema::{BqlType, ColumnDef, ColumnView, OperatorSchema, column_position, find_column,
    is_system_name, lemma_column_position};
use crate::text::{sort_texts, sorted_texts, text_eq, text_in, text_views};
use crate::value::EntityId;

verus! {

/// The number of events that an open session may have by default.
pub const DEFAULT_SESSION_EVENT_CAP: usize = 1_000_000;

/// The cells of one row.
pub struct RowCells {
    pub cells: Seq<Option<CellView>>,
}

/// Row `i` of some columns.
pub open spec fn row_of(columns: Seq<Seq<Option<CellView>>>, i: int) -> RowCells {
    RowCells { cells: Seq::new(columns.len(), |j: int| columns[j][i]) }
}

/// The first `n` rows of some columns.
pub open spec fn rows_of(columns: Seq<Seq<Option<CellView>>>, n: nat) -> Seq<RowCells> {
    Seq::new(n, |i: int| row_of(columns, i))
}

/// The cells of the columns of a batch.
pub open spec fn column_cells(b: BatchView) -> Seq<Seq<Option<CellView>>> {
    Seq::new(b.columns.len(), |j: int| b.columns[j].cells)
}

/// The rows of a batch.
pub open spec fn batch_rows(b: BatchView) -> Seq<RowCells> {
    rows_of(column_cells(b), b.rows)
}

/// The rows of the first `n` batches.
pub open spec fn flat_rows(batches: Seq<BatchView>, n: int) -> Seq<RowCells>
    decreases n,
{
    if n <= 0 {
        Seq::empty()
    } else {
        flat_rows(batches, n - 1) + batch_rows(batches[n - 1])
    }
}

/// The rows of the first `n` sessions.
pub open spec fn flat_sessions(sessions: Seq<Seq<RowCells>>, n: int) -> Seq<RowCells>
    decreases n,
{
    if n <= 0 {
        Seq::empty()
    } else {
        flat_sessions(sessions, n - 1) + sessions[n - 1]
    }
}

/// Where a column of the result comes from.
pub enum Source {
    SessionId,
    Duration,
    /// A kept column.
    Kept(int),
    /// Nowhere: the column is null.
    Nothing,
}

/// How sessions are told apart and shown.
pub struct SessionSetup {
    pub gap: i64,
    pub cap: usize,
    pub sources: Seq<Source>,
}

/// What is known of an entity.
pub struct SessionModel {
    pub session_id: i64,
    /// The time of the first event of the open session, `i64::MIN` when there is
    /// none.
    pub start: i64,
    /// The time of the last event of the open session.
    pub last: i64,
    /// The kept columns of the open session.
    pub open: Seq<RowCells>,
    /// The number of events of the open session.
    pub count: usize,
    /// The number of events of the entity.
    pub events: u64,
    /// The rows of each closed session, as they are shown.
    pub done: Seq<Seq<RowCells>>,
    pub cap_exceeded: bool,
    pub skipping: bool,
}

/// The difference of two times, within range.
pub open spec fn time_between(later: i64, earlier: i64) -> i64 {
    let d = later - earlier;
    if d > i64::MAX {
        i64::MAX
    } else if d < i64::MIN {
        i64::MIN
    } else {
        d as i64
    }
}

/// The difference of two times, within range.
pub fn elapsed(later: i64, earlier: i64) -> (r: i64)
    ensures
        r == time_between(later, earlier),
        i64::MIN <= later - earlier <= i64::MAX ==> r as int == later - earlier,
        later - earlier > i64::MAX ==> r == i64::MAX,
        later - earlier < i64::MIN ==> r == i64::MIN,
{
    let d: i128 = later as i128 - earlier as i128;
    if d > i64::MAX as i128 {
        i64::MAX
    } else if d < i64::MIN as i128 {
        i64::MIN
    } else {
        d as i64
    }
}

/// How a kept row is shown in a session.
pub open spec fn shown_row(
    sources: Seq<Source>,
    session_id: i64,
    duration: i64,
    row: RowCells,
) -> RowCells {
    RowCells {
        cells: Seq::new(
            sources.len(),
            |j: int|
                match sources[j] {
                    Source::SessionId => Some(CellView::Int(session_id)),
                    Source::Duration => Some(CellView::Int(duration)),
                    Source::Kept(k) => row.cells[k],
                    Source::Nothing => None,
                },
        ),
    }
}

/// How the rows of a session are shown.
pub open spec fn shown_session(
    sources: Seq<Source>,
    session_id: i64,
    duration: i64,
    rows: Seq<RowCells>,
) -> Seq<RowCells> {
    Seq::new(rows.len(), |i: int| shown_row(sources, session_id, duration, rows[i]))
}

/// The id after another.
pub open spec fn next_id(id: i64) -> i64 {
    if id < i64::MAX {
        (id + 1) as i64
    } else {
        id
    }
}

/// The entity after its open session was closed. Nothing is shown of a session
/// without rows, and it does not use up an id.
pub open spec fn closed(setup: SessionSetup, m: SessionModel) -> SessionModel {
    let reset = SessionModel { start: i64::MIN, last: i64::MIN, count: 0, ..m };
    if m.open.len() == 0 {
        reset
    } else {
        SessionModel {
            done: m.done.push(
                shown_session(
                    setup.sources,
                    m.session_id,
                    time_between(m.last, m.start),
                    m.open,
                ),
            ),
            open: Seq::empty(),
            session_id: next_id(m.session_id),
            ..reset
        }
    }
}

/// The entity after its open session was closed by an end event.
pub open spec fn closed_if(end: bool, setup: SessionSetup, m: SessionModel) -> SessionModel {
    if end {
        closed(setup, m)
    } else {
        m
    }
}

/// One event more, up to the largest number.
pub open spec fn one_event_more(n: u64) -> u64 {
    if n < u64::MAX {
        (n + 1) as u64
    } else {
        n
    }
}

/// The entity after an event began a session.
pub open spec fn begun(m: SessionModel, ts: i64, row: RowCells) -> SessionModel {
    SessionModel { start: ts, last: ts, count: 1, open: m.open.push(row), ..m }
}

/// The entity after an event continued its open session.
pub open spec fn continued(m: SessionModel, ts: i64, row: RowCells) -> SessionModel {
    SessionModel {
        last: ts,
        count: if m.count < usize::MAX {
            (m.count + 1) as usize
        } else {
            m.count
        },
        open: m.open.push(row),
        ..m
    }
}

/// The entity after an event.
pub open spec fn after_event_row(
    setup: SessionSetup,
    m: SessionModel,
    ts: i64,
    end: bool,
    row: RowCells,
) -> SessionModel {
    let counted = SessionModel { events: one_event_more(m.events), ..m };
    if m.skipping {
        counted
    } else if m.start == i64::MIN {
        closed_if(end, setup, begun(counted, ts, row))
    } else if time_between(ts, m.last) > setup.gap {
        closed_if(end, setup, begun(closed(setup, counted), ts, row))
    } else {
        let more = continued(counted, ts, row);
        if more.count > setup.cap {
            SessionModel { cap_exceeded: true, skipping: true, ..closed(setup, more) }
        } else {
            closed_if(end, setup, more)
        }
    }
}

/// The entity after the first `n` of some events.
pub open spec fn after_events(
    setup: SessionSetup,
    m: SessionModel,
    stamps: Seq<i64>,
    ends: Seq<bool>,
    rows: Seq<RowCells>,
    n: int,
) -> SessionModel
    decreases n,
{
    if n <= 0 {
        m
    } else {
        after_event_row(
            setup,
            after_events(setup, m, stamps, ends, rows, n - 1),
            stamps[n - 1],
            ends[n - 1],
            rows[n - 1],
        )
    }
}

/// A number of events more, up to the largest number.
pub open spec fn more_events(n: u64, k: nat) -> u64 {
    if n + k <= u64::MAX {
        (n + k) as u64
    } else {
        u64::MAX
    }
}

/// The entity after a sub-batch.
pub open spec fn after_sub_batch(
    setup: SessionSetup,
    m: SessionModel,
    stamps: Seq<i64>,
    ends: Seq<bool>,
    rows: Seq<RowCells>,
) -> SessionModel {
    after_events(setup, m, stamps, ends, rows, rows.len() as int)
}

/// The entity after its end.
pub open spec fn after_entity(setup: SessionSetup, m: SessionModel) -> SessionModel {
    if !m.skipping && m.start != i64::MIN {
        closed(setup, m)
    } else {
        m
    }
}

/// An entity of which nothing was seen.
pub open spec fn no_sessions() -> SessionModel {
    SessionModel {
        session_id: 1,
        start: i64::MIN,
        last: i64::MIN,
        open: Seq::empty(),
        count: 0,
        events: 0,
        done: Seq::empty(),
        cap_exceeded: false,
        skipping: false,
    }
}

/// Whether a cell is the name of an end type.
pub open spec fn is_end_cell(cell: Option<CellView>, end_types: Seq<Seq<char>>) -> bool {
    match cell {
        Some(CellView::Str(s)) => end_types.contains(s),
        _ => false,
    }
}

/// Whether a type column is one whose names the operator looks into: text, or a
/// dictionary of text with 32-bit codes.
pub open spec fn holds_names(t: DataType) -> bool {
    ||| type_kind(t) == DataKind::Utf8View
    ||| type_kind(t) == DataKind::DictInt32 && (entry_type(t) matches Some(e) && (type_kind(e)
        == DataKind::Utf8View || type_kind(e) == DataKind::Utf8))
}

/// Whether a row of a type column is an end event.
pub open spec fn is_end_row(col: ArrayView, end_types: Seq<Seq<char>>, i: int) -> bool {
    holds_names(col.data_type) && is_end_cell(col.cells[i], end_types)
}

/// The codes of a dictionary that name an end type.
#[derive(Debug)]
pub struct EndEventCodeSet {
    pub matching_codes: HashSet<i32>,
}

impl EndEventCodeSet {
    /// The codes of the entries that name an end type.
    fn build(entries: &Vec<Option<String>>, end_types: &Vec<String>) -> (r: Self)
        ensures
            forall|c: i32|
                #[trigger] r.matching_codes@.contains(c) == (0 <= c < entries@.len() && is_end_cell(
                    text_cells(entries@)[c as int],
                    text_views(end_types@),
                )),
    {
        broadcast use vstd::std_specs::hash::group_hash_axioms;

        let mut matching_codes: HashSet<i32> = HashSet::new();
        let mut code: usize = 0;
        let limit: usize = 0x7fff_ffff;
        while code < entries.len() && code <= limit
            invariant
                code <= entries@.len(),
                limit == i32::MAX,
                code <= limit + 1,
                forall|c: i32|
                    #[trigger] matching_codes@.contains(c) == (0 <= c < code && is_end_cell(
                        text_cells(entries@)[c as int],
                        text_views(end_types@),
                    )),
            decreases entries@.len() - code,
        {
            match &entries[code] {
                Some(name) => {
                    if text_in(end_types, name.as_str()) {
                        let _ = matching_codes.insert(code as i32);
                    }
                },
                None => {},
            }
            code = code + 1;
        }
        EndEventCodeSet { matching_codes }
    }

    /// Whether a code names an end type.
    pub fn contains_code(&self, code: i32) -> (r: bool)
        ensures
            r == self.matching_codes@.contains(code),
    {
        broadcast use vstd::std_specs::hash::group_hash_axioms;

        self.matching_codes.contains(&code)
    }
}

/// What the planner says of a sessionize operator.
#[derive(Debug)]
pub struct SessionizePhysical {
    /// The longest time between two events of a session, in nanoseconds.
    pub gap_ns: i64,
    /// The event types that end a session.
    pub end_events: Vec<String>,
    /// The columns that are needed downstream.
    pub forwarded_columns: Vec<String>,
    /// The columns of the input.
    pub input_schema: OperatorSchema,
    /// The columns of the result, among them `session_id` and
    /// `session_duration`.
    pub output_schema: OperatorSchema,
    /// Whether an aggregate is fused into the operator, which is not supported.
    pub fused_aggregate: bool,
}

/// A list of names with one more, unless it is there already.
pub open spec fn with_name(names: Seq<Seq<char>>, name: Seq<char>) -> Seq<Seq<char>> {
    if names.contains(name) {
        names
    } else {
        names.push(name)
    }
}

/// A list of names with the first `n` of some others.
pub open spec fn with_names(names: Seq<Seq<char>>, more: Seq<Seq<char>>, n: int) -> Seq<Seq<char>>
    decreases n,
{
    if n <= 0 {
        names
    } else {
        with_name(with_names(names, more, n - 1), more[n - 1])
    }
}

/// Whether a column of the result cannot be left null and comes from the input.
pub open spec fn must_keep(input: Seq<ColumnView>, c: ColumnView) -> bool {
    &&& !c.nullable
    &&& c.name != "session_id"@
    &&& c.name != "session_duration"@
    &&& !is_system_name(c.name)
    &&& column_position(input, c.name, 0) is Some
}

/// A list of names with those of the first `n` columns that must be kept.
pub open spec fn with_kept(
    names: Seq<Seq<char>>,
    input: Seq<ColumnView>,
    output: Seq<ColumnView>,
    n: int,
) -> Seq<Seq<char>>
    decreases n,
{
    if n <= 0 {
        names
    } else {
        let before = with_kept(names, input, output, n - 1);
        if must_keep(input, output[n - 1]) {
            with_name(before, output[n - 1].name)
        } else {
            before
        }
    }
}

/// The names of the columns that are kept while a session is open.
pub open spec fn kept_names(desc: &SessionizePhysical) -> Seq<Seq<char>> {
    let basic = if desc.end_events@.len() > 0 {
        seq!["entity_id"@, "ts"@, "event_type"@]
    } else {
        seq!["entity_id"@, "ts"@]
    };
    with_kept(
        with_names(
            basic,
            text_views(desc.forwarded_columns@),
            desc.forwarded_columns@.len() as int,
        ),
        desc.input_schema@,
        desc.output_schema@,
        desc.output_schema@.len() as int,
    )
}

/// The first position of a name, from `i` on.
pub open spec fn name_position(names: Seq<Seq<char>>, name: Seq<char>, i: int) -> Option<int>
    decreases names.len() - i,
{
    if i >= names.len() {
        None
    } else if names[i] == name {
        Some(i)
    } else {
        name_position(names, name, i + 1)
    }
}

/// Where a column of the result comes from.
pub open spec fn source_of(desc: &SessionizePhysical, j: int) -> Source {
    let output = desc.output_schema@;
    if column_position(output, "session_id"@, 0) == Some(j) {
        Source::SessionId
    } else if column_position(output, "session_duration"@, 0) == Some(j) {
        Source::Duration
    } else {
        match name_position(kept_names(desc), output[j].name, 0) {
            Some(k) => Source::Kept(k),
            None => Source::Nothing,
        }
    }
}

/// The field of the kept column with a name.
pub open spec fn kept_field(input: Seq<ColumnView>, name: Seq<char>) -> FieldView {
    let c = input[column_position(input, name, 0)->0];
    FieldView { name: c.name, data_type: physical_type(c.bql_type), nullable: c.nullable }
}

/// Whether the columns that the operator needs are there.
pub open spec fn has_columns(desc: &SessionizePhysical) -> bool {
    &&& column_position(desc.input_schema@, "ts"@, 0) is Some
    &&& forall|i: int|
        0 <= i < kept_names(desc).len() ==> column_position(
            desc.input_schema@,
            #[trigger] kept_names(desc)[i],
            0,
        ) is Some
    &&& column_position(desc.output_schema@, "session_id"@, 0) is Some
    &&& column_position(desc.output_schema@, "session_duration"@, 0) is Some
}

/// Whether the result of an operator can be shown in the columns of a plan: the
/// numbers of sessions and their durations are integers, a kept column is shown as
/// it is, and any other column may be null.
pub open spec fn showable(desc: &SessionizePhysical) -> bool {
    let input = desc.input_schema@;
    let output = desc.output_schema@;
    forall|j: int|
        0 <= j < output.len() ==> {
            let c = #[trigger] output[j];
            match source_of(desc, j) {
                Source::SessionId => c.bql_type == BqlType::Int,
                Source::Duration => c.bql_type == BqlType::Int,
                Source::Kept(k) => {
                    let kept = input[column_position(input, kept_names(desc)[k], 0)->0];
                    c.bql_type == kept.bql_type && (c.nullable || !kept.nullable)
                },
                Source::Nothing => c.nullable,
            }
        }
}

/// The positions, among the first `n`, of the columns that come from nowhere.
pub open spec fn null_columns(sources: Seq<Source>, n: int) -> Seq<int>
    decreases n,
{
    if n <= 0 {
        Seq::empty()
    } else if sources[n - 1] is Nothing {
        null_columns(sources, n - 1).push(n - 1)
    } else {
        null_columns(sources, n - 1)
    }
}

/// The operator.
#[derive(Debug)]
pub struct SessionizeOperator {
    /// The longest time between two events of a session.
    pub gap_ns: i64,
    /// The event types that end a session, in order.
    pub end_events_list: Vec<String>,
    pub output_schema: OperatorSchema,
    /// The kept columns.
    pub buffered_fields: SchemaSpec,
    /// The columns of the result.
    pub output_fields: SchemaSpec,
    /// The position of the time column in the input.
    pub ts_idx: usize,
    /// The position of the type column in the input, if there are end types.
    pub event_type_idx: Option<usize>,
    /// The positions of the kept columns in the input.
    pub buffered_indices: Vec<usize>,
    /// The names of the kept columns.
    pub required_column_names: Vec<String>,
    /// The columns of the result that are null.
    pub null_padded_output_indices: Vec<usize>,
    pub session_id_out_idx: usize,
    pub session_duration_out_idx: usize,
    /// The kept column that each column of the result shows.
    pub output_to_buffer_slot: Vec<Option<usize>>,
    /// The number of events that an open session may have.
    pub session_event_cap: usize,
}

impl SessionizeOperator {
    /// Where a column of the result comes from.
    pub open spec fn source(&self, j: int) -> Source {
        if j == self.session_id_out_idx {
            Source::SessionId
        } else if j == self.session_duration_out_idx {
            Source::Duration
        } else {
            match self.output_to_buffer_slot@[j] {
                Some(k) => Source::Kept(k as int),
                None => Source::Nothing,
            }
        }
    }

    /// How sessions are told apart and shown.
    pub open spec fn setup(&self) -> SessionSetup {
        SessionSetup {
            gap: self.gap_ns,
            cap: self.session_event_cap,
            sources: Seq::new(self.output_schema@.len(), |j: int| self.source(j)),
        }
    }

    /// The operator is set up.
    pub open spec fn wf(&self) -> bool {
        &&& self.buffered_fields@.len() == self.buffered_indices@.len()
            == self.required_column_names@.len()
        &&& self.buffered_fields@.len() > 0
        &&& all_plain(self.buffered_fields@)
        &&& self.output_fields@ == schema_fields(self.output_schema@)
        &&& all_plain(self.output_fields@)
        &&& self.output_to_buffer_slot@.len() == self.output_schema@.len()
        &&& self.session_id_out_idx < self.output_schema@.len()
        &&& self.session_duration_out_idx < self.output_schema@.len()
        &&& forall|j: int|
            0 <= j < self.output_to_buffer_slot@.len() ==> ((
            #[trigger] self.output_to_buffer_slot@[j]) matches Some(k) ==> k
                < self.buffered_fields@.len())
    }

    /// The result can be shown: a column that is not kept may be null, and a kept
    /// column is shown as it is.
    pub open spec fn can_show(&self) -> bool {
        forall|j: int|
            0 <= j < self.output_fields@.len() ==> {
                let f = #[trigger] self.output_fields@[j];
                match self.source(j) {
                    Source::SessionId => f.data_type == physical_type(BqlType::Int),
                    Source::Duration => f.data_type == physical_type(BqlType::Int),
                    Source::Kept(k) => {
                        &&& f.data_type == self.buffered_fields@[k].data_type
                        &&& f.nullable || !self.buffered_fields@[k].nullable
                    },
                    Source::Nothing => f.nullable,
                }
            }
    }

    /// The cells of a kept column of a batch; `None` where they cannot be converted to
    /// the type in which the column is kept.
    pub open spec fn kept_cells(&self, b: BatchView, k: int) -> Option<Seq<Option<CellView>>> {
        let a = b.columns[self.buffered_indices@[k] as int];
        let t = self.buffered_fields@[k].data_type;
        converted_cells(a, t)
    }

    /// Whether the kept columns of a batch can be converted as far as the lengths of
    /// their buffers go.
    pub open spec fn can_hold(&self, b: Batch) -> bool {
        forall|k: int|
            0 <= k < self.buffered_indices@.len() ==> {
                let i = #[trigger] self.buffered_indices@[k] as int;
                let from = batch_view(b).columns[i].data_type;
                let to = self.buffered_fields@[k].data_type;
                from == to || has_room(from, column_buffers(b)[i], to)
            }
    }

    /// The kept columns of a batch.
    pub open spec fn kept_columns(&self, b: BatchView) -> Seq<Seq<Option<CellView>>> {
        Seq::new(self.buffered_fields@.len(), |k: int| self.kept_cells(b, k)->0)
    }

    /// The kept rows of a batch.
    pub open spec fn kept_rows(&self, b: BatchView) -> Seq<RowCells> {
        rows_of(self.kept_columns(b), b.rows)
    }

    /// The times of a batch.
    pub open spec fn stamps(&self, b: BatchView) -> Seq<i64> {
        b.columns[self.ts_idx as int].raw
    }

    /// The rows that are shown of an entity after its end.
    pub open spec fn shown_rows(&self, m: SessionModel) -> Seq<RowCells> {
        let done = after_entity(self.setup(), m).done;
        flat_sessions(done, done.len() as int)
    }

    /// Which rows of a batch are end events.
    pub open spec fn ends(&self, b: BatchView) -> Seq<bool> {
        Seq::new(
            b.rows,
            |i: int|
                match self.event_type_idx {
                    Some(c) => is_end_row(b.columns[c as int], text_views(self.end_events_list@), i),
                    None => false,
                },
        )
    }

    /// Whether a batch has the columns that the operator reads, of types that it
    /// can use.
    pub open spec fn readable(&self, b: BatchView) -> bool {
        &&& self.ts_idx < b.columns.len()
        &&& type_kind(b.columns[self.ts_idx as int].data_type) == DataKind::TimestampNs
        &&& self.event_type_idx matches Some(c) ==> c < b.columns.len() && (type_kind(
            b.columns[c as int].data_type,
        ) == DataKind::Utf8View || type_kind(b.columns[c as int].data_type)
            == DataKind::DictInt32)
        &&& forall|k: int|
            0 <= k < self.buffered_indices@.len() ==> {
                &&& (#[trigger] self.buffered_indices@[k]) < b.columns.len()
                &&& self.kept_cells(b, k) is Some
                &&& self.buffered_fields@[k].nullable || no_nulls(self.kept_cells(b, k)->0)
            }
    }

    /// An operator with the default limit.
    pub fn new(desc: &SessionizePhysical) -> (r: Self)
        requires
            !desc.fused_aggregate,
            has_columns(desc),
        ensures
            r.built_from(desc, DEFAULT_SESSION_EVENT_CAP),
    {
        SessionizeOperator::new_with_cap(desc, DEFAULT_SESSION_EVENT_CAP)
    }

    /// The operator that a plan describes.
    pub open spec fn built_from(&self, desc: &SessionizePhysical, cap: usize) -> bool {
        let names = kept_names(desc);
        &&& self.wf()
        &&& self.setup() == (SessionSetup {
            gap: desc.gap_ns,
            cap,
            sources: Seq::new(desc.output_schema@.len(), |j: int| source_of(desc, j)),
        })
        &&& sorted_texts(text_views(self.end_events_list@))
        &&& forall|s: Seq<char>|
            text_views(self.end_events_list@).contains(s) <==> #[trigger] text_views(
                desc.end_events@,
            ).contains(s)
        &&& self.output_schema@ == desc.output_schema@
        &&& text_views(self.required_column_names@) == names
        &&& self.null_padded_output_indices@.map_values(|i: usize| i as int) == null_columns(
            self.setup().sources,
            self.output_schema@.len() as int,
        )
        &&& self.buffered_fields@ == Seq::new(
            names.len(),
            |i: int| kept_field(desc.input_schema@, names[i]),
        )
        &&& forall|i: int|
            0 <= i < names.len() ==> Some((#[trigger] self.buffered_indices@[i]) as int)
                == column_position(desc.input_schema@, names[i], 0)
        &&& Some(self.ts_idx as int) == column_position(desc.input_schema@, "ts"@, 0)
        &&& match self.event_type_idx {
            Some(c) => desc.end_events@.len() > 0 && Some(c as int) == column_position(
                desc.input_schema@,
                "event_type"@,
                0,
            ),
            None => desc.end_events@.len() == 0,
        }
        &&& showable(desc) ==> self.can_show()
    }
}

/// Adds a name to a list, unless it is there already.
fn push_name(names: &mut Vec<String>, name: &str)
    ensures
        text_views(final(names)@) == with_name(text_views(old(names)@), name@),
{
    if !text_in(names, name) {
        let ghost before = text_views(names@);
        names.push(name.to_owned());
        assert(text_views(names@) =~= before.push(name@));
    }
}

/// The names of the columns that are kept while a session is open.
fn names_to_keep(desc: &SessionizePhysical) -> (r: Vec<String>)
    ensures
        text_views(r@) == kept_names(desc),
        r@.len() > 0,
{
    let mut names: Vec<String> = Vec::new();
    names.push("entity_id".to_owned());
    names.push("ts".to_owned());
    if desc.end_events.len() > 0 {
        names.push("event_type".to_owned());
        assert(text_views(names@) =~= seq!["entity_id"@, "ts"@, "event_type"@]);
    } else {
        assert(text_views(names@) =~= seq!["entity_id"@, "ts"@]);
    }
    let ghost basic = text_views(names@);
    let ghost more = text_views(desc.forwarded_columns@);
    let mut i: usize = 0;
    while i < desc.forwarded_columns.len()
        invariant
            i <= desc.forwarded_columns@.len(),
            more == text_views(desc.forwarded_columns@),
            text_views(names@) == with_names(basic, more, i as int),
            text_views(names@).len() > 0,
        decreases desc.forwarded_columns@.len() - i,
    {
        push_name(&mut names, desc.forwarded_columns[i].as_str());
        i = i + 1;
    }
    let ghost forwarded = text_views(names@);
    let mut j: usize = 0;
    while j < desc.output_schema.columns.len()
        invariant
            j <= desc.output_schema.columns@.len(),
            text_views(names@) == with_kept(
                forwarded,
                desc.input_schema@,
                desc.output_schema@,
                j as int,
            ),
            text_views(names@).len() > 0,
        decreases desc.output_schema.columns@.len() - j,
    {
        let col: &ColumnDef = &desc.output_schema.columns[j];
        assert(desc.output_schema@[j as int] == col@);
        if !col.nullable && !text_eq(col.name.as_str(), "session_id") && !text_eq(
            col.name.as_str(),
            "session_duration",
        ) && !col.is_system() && find_column(&desc.input_schema.columns, col.name.as_str()).is_some() {
            push_name(&mut names, col.name.as_str());
        }
        j = j + 1;
    }
    assert(text_views(names@).len() == names@.len());
    names
}

/// The first position of a name.
fn position_of(names: &Vec<String>, name: &str) -> (r: Option<usize>)
    ensures
        name_position(text_views(names@), name@, 0) == (match r {
            Some(i) => Some(i as int),
            None => None::<int>,
        }),
        r matches Some(i) ==> i < names@.len(),
{
    let mut i: usize = 0;
    while i < names.len()
        invariant
            i <= names@.len(),
            name_position(text_views(names@), name@, 0) == name_position(
                text_views(names@),
                name@,
                i as int,
            ),
        decreases names@.len() - i,
    {
        assert(text_views(names@)[i as int] == names@[i as int]@);
        if text_eq(names[i].as_str(), name) {
            return Some(i);
        }
        i = i + 1;
    }
    None
}

impl SessionizeOperator {
    /// An operator with a limit on the events of an open session.
    pub fn new_with_cap(desc: &SessionizePhysical, session_event_cap: usize) -> (r: Self)
        requires
            !desc.fused_aggregate,
            has_columns(desc),
        ensures
            r.built_from(desc, session_event_cap),
    {
        let ghost names = kept_names(desc);
        let ghost input = desc.input_schema@;
        let ghost output = desc.output_schema@;
        let required_column_names: Vec<String> = names_to_keep(desc);
        proof {
            lemma_kept_names_basic(desc);
        }
        let ts_idx: usize = match find_column(&desc.input_schema.columns, "ts") {
            Some(i) => i,
            None => 0,
        };
        let event_type_idx: Option<usize> = if desc.end_events.len() == 0 {
            None
        } else {
            find_column(&desc.input_schema.columns, "event_type")
        };
        let mut buffered_indices: Vec<usize> = Vec::new();
        let mut fields: Vec<FieldSpec> = Vec::new();
        let mut i: usize = 0;
        while i < required_column_names.len()
            invariant
                i <= required_column_names@.len(),
                has_columns(desc),
                names == kept_names(desc),
                input == desc.input_schema@,
                text_views(required_column_names@) == names,
                buffered_indices@.len() == i,
                fields@.len() == i,
                forall|k: int|
                    0 <= k < i ==> {
                        &&& Some((#[trigger] buffered_indices@[k]) as int) == column_position(
                            input,
                            names[k],
                            0,
                        )
                        &&& fields@[k]@ == kept_field(input, names[k])
                        &&& is_plain(type_kind(fields@[k].data_type))
                    },
            decreases required_column_names@.len() - i,
        {
            assert(names[i as int] == required_column_names@[i as int]@);
            match find_column(&desc.input_schema.columns, required_column_names[i].as_str()) {
                Some(k) => {
                    let col: &ColumnDef = &desc.input_schema.columns[k];
                    assert(input[k as int] == col@);
                    buffered_indices.push(k);
                    fields.push(
                        FieldSpec {
                            name: col.name.clone(),
                            data_type: to_physical(col.bql_type),
                            nullable: col.nullable,
                            metadata: Vec::new(),
                        },
                    );
                },
                None => {
                    assert(false);
                },
            }
            i = i + 1;
        }
        let buffered_fields = SchemaSpec { fields, metadata: Vec::new() };
        let output_fields: SchemaSpec = to_schema_spec(&desc.output_schema);
        let session_id_out_idx: usize = match find_column(
            &desc.output_schema.columns,
            "session_id",
        ) {
            Some(k) => k,
            None => 0,
        };
        let session_duration_out_idx: usize = match find_column(
            &desc.output_schema.columns,
            "session_duration",
        ) {
            Some(k) => k,
            None => 0,
        };
        let mut output_to_buffer_slot: Vec<Option<usize>> = Vec::new();
        let mut null_padded_output_indices: Vec<usize> = Vec::new();
        let mut j: usize = 0;
        let ghost sources = Seq::new(output.len(), |j: int| source_of(desc, j));
        proof {
            lemma_column_position(output, "session_id"@, 0);
            lemma_column_position(output, "session_duration"@, 0);
            assert(null_padded_output_indices@.map_values(|i: usize| i as int) =~= null_columns(
                sources,
                0,
            ));
        }
        while j < desc.output_schema.columns.len()
            invariant
                j <= desc.output_schema.columns@.len(),
                output == desc.output_schema@,
                names == kept_names(desc),
                sources == Seq::new(output.len(), |j: int| source_of(desc, j)),
                column_position(output, "session_id"@, 0) == Some(session_id_out_idx as int),
                column_position(output, "session_duration"@, 0) == Some(
                    session_duration_out_idx as int,
                ),
                null_padded_output_indices@.map_values(|i: usize| i as int) == null_columns(
                    sources,
                    j as int,
                ),
                text_views(required_column_names@) == names,
                output_to_buffer_slot@.len() == j,
                forall|k: int|
                    0 <= k < j ==> {
                        &&& (#[trigger] output_to_buffer_slot@[k]) matches Some(p) ==> p
                            < names.len()
                        &&& k == session_id_out_idx || k == session_duration_out_idx || (
                        match output_to_buffer_slot@[k] {
                            Some(p) => Some(p as int),
                            None => None,
                        }) == name_position(names, output[k].name, 0)
                    },
            decreases desc.output_schema.columns@.len() - j,
        {
            assert(output[j as int] == desc.output_schema.columns@[j as int]@);
            if j == session_id_out_idx || j == session_duration_out_idx {
                output_to_buffer_slot.push(None);
            } else {
                let slot: Option<usize> = position_of(
                    &required_column_names,
                    desc.output_schema.columns[j].name.as_str(),
                );
                if slot.is_none() {
                    let ghost before = null_padded_output_indices@;
                    null_padded_output_indices.push(j);
                    assert(null_padded_output_indices@.map_values(|i: usize| i as int)
                        =~= before.map_values(|i: usize| i as int).push(j as int));
                }
                output_to_buffer_slot.push(slot);
            }
            j = j + 1;
        }
        let r = SessionizeOperator {
            gap_ns: desc.gap_ns,
            end_events_list: sort_texts(&desc.end_events),
            output_schema: desc.output_schema.duplicate(),
            buffered_fields,
            output_fields,
            ts_idx,
            event_type_idx,
            buffered_indices,
            required_column_names,
            null_padded_output_indices,
            session_id_out_idx,
            session_duration_out_idx,
            output_to_buffer_slot,
            session_event_cap,
        };
        proof {
            assert(text_views(required_column_names@).len() == required_column_names@.len());
            assert forall|k: int| 0 <= k < names.len() implies r.buffered_fields@[k]
                == kept_field(input, #[trigger] names[k]) by {
                let _ = r.buffered_indices@[k];
            }
            assert(r.buffered_fields@ =~= Seq::new(
                names.len(),
                |i: int| kept_field(input, names[i]),
            ));
            assert forall|k: int| 0 <= k < r.buffered_fields@.len() implies is_plain(
                type_kind((#[trigger] r.buffered_fields@[k]).data_type),
            ) by {
                let _ = r.buffered_indices@[k];
            }
            assert forall|k: int| 0 <= k < r.output_fields@.len() implies is_plain(
                type_kind((#[trigger] r.output_fields@[k]).data_type),
            ) by {
                assert(r.output_fields@[k] == r.output_fields.fields@[k]@);
            }
            assert(r.setup().sources =~= sources) by {
                assert forall|j: int| 0 <= j < output.len() implies r.source(j) == source_of(
                    desc,
                    j,
                ) by {
                    let _ = r.output_to_buffer_slot@[j];
                }
            }
            if showable(desc) {
                assert forall|j: int| 0 <= j < r.output_fields@.len() implies {
                    let f = #[trigger] r.output_fields@[j];
                    match r.source(j) {
                        Source::SessionId => f.data_type == physical_type(BqlType::Int),
                        Source::Duration => f.data_type == physical_type(BqlType::Int),
                        Source::Kept(k) => {
                            &&& f.data_type == r.buffered_fields@[k].data_type
                            &&& f.nullable || !r.buffered_fields@[k].nullable
                        },
                        Source::Nothing => f.nullable,
                    }
                } by {
                    assert(r.setup().sources[j] == sources[j]);
                    assert(output[j].bql_type == desc.output_schema@[j].bql_type);
                    let _ = r.output_to_buffer_slot@[j];
                }
            }
        }
        r
    }

    /// The columns of the result that are null.
    pub fn null_padded_output_indices(&self) -> (r: &[usize])
        ensures
            r@ == self.null_padded_output_indices@,
    {
        self.null_padded_output_indices.as_slice()
    }

    /// The event types that end a session, in order.
    pub fn end_events_list(&self) -> (r: &[String])
        ensures
            r@ == self.end_events_list@,
    {
        self.end_events_list.as_slice()
    }

    /// The kept columns.
    pub fn buffered_fields(&self) -> (r: &SchemaSpec)
        ensures
            *r == self.buffered_fields,
    {
        &self.buffered_fields
    }
}

proof fn lemma_with_names_keeps(names: Seq<Seq<char>>, more: Seq<Seq<char>>, n: int)
    ensures
        names.len() <= with_names(names, more, n).len(),
        forall|i: int|
            0 <= i < names.len() ==> with_names(names, more, n)[i] == #[trigger] names[i],
    decreases n,
{
    if n > 0 {
        lemma_with_names_keeps(names, more, n - 1);
    }
}

proof fn lemma_with_kept_keeps(
    names: Seq<Seq<char>>,
    input: Seq<ColumnView>,
    output: Seq<ColumnView>,
    n: int,
)
    ensures
        names.len() <= with_kept(names, input, output, n).len(),
        forall|i: int|
            0 <= i < names.len() ==> with_kept(names, input, output, n)[i] == #[trigger] names[i],
    decreases n,
{
    if n > 0 {
        lemma_with_kept_keeps(names, input, output, n - 1);
    }
}

/// The type column is kept where there are end types.
proof fn lemma_kept_names_basic(desc: &SessionizePhysical)
    ensures
        desc.end_events@.len() > 0 ==> kept_names(desc).len() >= 3 && kept_names(desc)[2]
            == "event_type"@,
{
    let basic = if desc.end_events@.len() > 0 {
        seq!["entity_id"@, "ts"@, "event_type"@]
    } else {
        seq!["entity_id"@, "ts"@]
    };
    let more = text_views(desc.forwarded_columns@);
    let n = desc.forwarded_columns@.len() as int;
    lemma_with_names_keeps(basic, more, n);
    let forwarded = with_names(basic, more, n);
    lemma_with_kept_keeps(
        forwarded,
        desc.input_schema@,
        desc.output_schema@,
        desc.output_schema@.len() as int,
    );
    if desc.end_events@.len() > 0 {
        assert(forwarded[2] == basic[2]);
        assert(kept_names(desc)[2] == forwarded[2]);
    }
}

/// What the operator knows of one entity.
pub struct SessionizeState {
    pub entity_id: EntityId,
    /// The id of the open session.
    pub current_session_id: i64,
    /// The time of the first event of the open session, `i64::MIN` when there is
    /// none.
    pub session_start_ts: i64,
    /// The time of the last event of the open session.
    pub session_last_ts: i64,
    /// The kept columns of the open session.
    pub open_buffer: Vec<Batch>,
    /// The number of events of the open session.
    pub session_event_count: usize,
    /// The number of events of the entity.
    pub entity_event_count: u64,
    /// The closed sessions, one batch for each.
    pub completed: Vec<Batch>,
    /// Whether a session had too many events.
    pub cap_exceeded: bool,
    /// Whether the rest of the entity is skipped.
    pub skipping: bool,
}

impl View for SessionizeState {
    type V = SessionModel;

    open spec fn view(&self) -> SessionModel {
        SessionModel {
            session_id: self.current_session_id,
            start: self.session_start_ts,
            last: self.session_last_ts,
            open: flat_rows(batch_views(self.open_buffer@), self.open_buffer@.len() as int),
            count: self.session_event_count,
            events: self.entity_event_count,
            done: Seq::new(
                self.completed@.len(),
                |i: int| batch_rows(batch_view(self.completed@[i])),
            ),
            cap_exceeded: self.cap_exceeded,
            skipping: self.skipping,
        }
    }
}

impl SessionizeState {
    /// Whether a session had too many events.
    pub fn cap_exceeded(&self) -> (r: bool)
        ensures
            r == self@.cap_exceeded,
    {
        self.cap_exceeded
    }

    /// The entity.
    pub fn entity_id(&self) -> (r: &EntityId)
        ensures
            *r == self.entity_id,
    {
        &self.entity_id
    }

    /// The number of events of the entity.
    pub fn entity_event_count(&self) -> (r: u64)
        ensures
            r == self@.events,
    {
        self.entity_event_count
    }
}

proof fn lemma_flat_rows_len(batches: Seq<BatchView>, n: int)
    requires
        forall|i: int| 0 <= i < n ==> (#[trigger] batches[i]).rows > 0,
        n <= batches.len(),
    ensures
        flat_rows(batches, n).len() == total_rows(batches, n),
        n > 0 ==> flat_rows(batches, n).len() > 0,
    decreases n,
{
    if n > 0 {
        lemma_flat_rows_len(batches, n - 1);
        assert(batches[n - 1].rows > 0);
    }
}

proof fn lemma_flat_rows_prefix(a: Seq<BatchView>, b: Seq<BatchView>, n: int)
    requires
        n <= a.len(),
        n <= b.len(),
        forall|i: int| 0 <= i < n ==> #[trigger] a[i] == b[i],
    ensures
        flat_rows(a, n) == flat_rows(b, n),
    decreases n,
{
    if n > 0 {
        lemma_flat_rows_prefix(a, b, n - 1);
        assert(a[n - 1] == b[n - 1]);
    }
}

proof fn lemma_joined_len(batches: Seq<BatchView>, fields: Seq<FieldView>, j: int, n: int)
    requires
        n <= batches.len(),
        0 <= j < fields.len(),
        forall|i: int| 0 <= i < batches.len() ==> conforms(#[trigger] batches[i], fields),
    ensures
        joined_cells(batches, j, n).len() == total_rows(batches, n),
    decreases n,
{
    if n > 0 {
        lemma_joined_len(batches, fields, j, n - 1);
        assert(conforms(batches[n - 1], fields));
        assert(batches[n - 1].columns[j].cells.len() == batches[n - 1].rows);
    }
}

/// Joining batches joins their rows.
proof fn lemma_joined_rows(batches: Seq<BatchView>, fields: Seq<FieldView>, n: int)
    requires
        n <= batches.len(),
        forall|i: int| 0 <= i < batches.len() ==> conforms(#[trigger] batches[i], fields),
    ensures
        rows_of(
            Seq::new(fields.len(), |j: int| joined_cells(batches, j, n)),
            total_rows(batches, n),
        ) == flat_rows(batches, n),
    decreases n,
{
    let columns = Seq::new(fields.len(), |j: int| joined_cells(batches, j, n));
    if n > 0 {
        let last = batches[n - 1];
        let before = Seq::new(fields.len(), |j: int| joined_cells(batches, j, n - 1));
        let k = total_rows(batches, n - 1) as int;
        lemma_joined_rows(batches, fields, n - 1);
        assert(conforms(last, fields));
        assert forall|i: int| 0 <= i < total_rows(batches, n) implies row_of(columns, i)
            == flat_rows(batches, n)[i] by {
            assert forall|j: int| 0 <= j < fields.len() implies columns[j][i] == (if i < k {
                before[j][i]
            } else {
                last.columns[j].cells[i - k]
            }) by {
                lemma_joined_len(batches, fields, j, n - 1);
                assert(last.columns[j].cells.len() == last.rows);
            }
            if i < k {
                assert(row_of(columns, i).cells =~= row_of(before, i).cells);
                assert(flat_rows(batches, n)[i] == flat_rows(batches, n - 1)[i]);
                assert(rows_of(before, k as nat)[i] == flat_rows(batches, n - 1)[i]);
            } else {
                assert(row_of(columns, i).cells =~= row_of(column_cells(last), i - k).cells);
                assert(rows_of(before, k as nat).len() == k);
                assert(flat_rows(batches, n)[i] == batch_rows(last)[i - k]);
            }
        }
        assert(rows_of(before, k as nat).len() == k);
        assert(rows_of(columns, total_rows(batches, n)) =~= flat_rows(batches, n));
    } else {
        assert(rows_of(columns, 0) =~= flat_rows(batches, n));
    }
}

impl SessionizeOperator {
    /// What the operator keeps of an entity is of the right types.
    pub open spec fn state_ok(&self, state: &SessionizeState) -> bool {
        &&& forall|i: int|
            0 <= i < state.open_buffer@.len() ==> {
                &&& conforms(
                    #[trigger] batch_views(state.open_buffer@)[i],
                    self.buffered_fields@,
                )
                &&& batch_views(state.open_buffer@)[i].rows > 0
            }
        &&& forall|i: int|
            0 <= i < state.completed@.len() ==> conforms(
                #[trigger] batch_views(state.completed@)[i],
                self.output_fields@,
            )
    }

    /// Whether arrays are the kept columns of a batch.
    spec fn are_kept(&self, columns: Seq<ArrayData>, b: BatchView) -> bool {
        &&& columns.len() == self.buffered_fields@.len()
        &&& forall|k: int|
            0 <= k < columns.len() ==> {
                &&& array_view(#[trigger] columns[k]).data_type
                    == self.buffered_fields@[k].data_type
                &&& array_view(columns[k]).cells == self.kept_columns(b)[k]
                &&& array_view(columns[k]).cells.len() == b.rows
                &&& self.buffered_fields@[k].nullable || no_nulls(array_view(columns[k]).cells)
            }
    }

    /// Whether the operator can read a batch.
    pub fn can_read(&self, batch: &Batch) -> (r: bool)
        requires
            self.wf(),
        ensures
            r == (self.readable(batch_view(*batch)) && self.can_hold(*batch)),
    {
        let ghost b = batch_view(*batch);
        let n: usize = num_columns(batch);
        if self.ts_idx >= n || data_kind(&column_at(batch, self.ts_idx)) != DataKind::TimestampNs {
            return false;
        }
        match self.event_type_idx {
            Some(c) => {
                if c >= n {
                    return false;
                }
                let kind: DataKind = data_kind(&column_at(batch, c));
                if kind != DataKind::Utf8View && kind != DataKind::DictInt32 {
                    return false;
                }
            },
            None => {},
        }
        let mut k: usize = 0;
        while k < self.buffered_indices.len()
            invariant
                k <= self.buffered_indices@.len(),
                n == b.columns.len(),
                b == batch_view(*batch),
                self.wf(),
                forall|i: int|
                    0 <= i < k ==> {
                        &&& (#[trigger] self.buffered_indices@[i]) < b.columns.len()
                        &&& self.kept_cells(b, i) is Some
                        &&& self.buffered_fields@[i].nullable || no_nulls(self.kept_cells(b, i)->0)
                    },
                forall|i: int|
                    0 <= i < k ==> {
                        let c = #[trigger] self.buffered_indices@[i] as int;
                        let from = b.columns[c].data_type;
                        let to = self.buffered_fields@[i].data_type;
                        from == to || has_room(from, column_buffers(*batch)[c], to)
                    },
            decreases self.buffered_indices@.len() - k,
        {
            let i: usize = self.buffered_indices[k];
            let field: &FieldSpec = &self.buffered_fields.fields[k];
            assert(self.buffered_fields@[k as int] == field@);
            if i >= n {
                assert(!(self.buffered_indices@[k as int] < b.columns.len()));
                return false;
            }
            let src: ArrayData = column_at(batch, i);
            let kept: ArrayData = match convert_array(&src, &field.data_type) {
                Some(c) => c,
                None => {
                    assert(self.buffered_indices@[k as int] == i);
                    return false;
                },
            };
            assert(self.kept_cells(b, k as int) == Some(array_view(kept).cells));
            if !field.nullable && null_count(&kept) > 0 {
                assert(self.buffered_indices@[k as int] == i);
                return false;
            }
            k = k + 1;
        }
        true
    }

    /// Takes in a sub-batch of one entity, sorted by time, if the operator can read
    /// it. Says whether it could.
    pub fn process_if_readable(&self, state: &mut SessionizeState, batch: &Batch) -> (r: bool)
        requires
            self.wf(),
            self.can_show(),
            self.state_ok(old(state)),
        ensures
            r == (old(state)@.skipping || batch_view(*batch).rows == 0 || (self.readable(
                batch_view(*batch),
            ) && self.can_hold(*batch))),
            self.state_ok(final(state)),
            final(state).entity_id == old(state).entity_id,
            final(state)@ == (if r {
                after_sub_batch(
                    self.setup(),
                    old(state)@,
                    self.stamps(batch_view(*batch)),
                    self.ends(batch_view(*batch)),
                    self.kept_rows(batch_view(*batch)),
                )
            } else {
                old(state)@
            }),
    {
        if state.skipping || num_rows(batch) == 0 || self.can_read(batch) {
            self.process_sub_batch(state, batch);
            true
        } else {
            false
        }
    }

    /// The kept columns of a batch, each converted to the type in which it is
    /// kept.
    fn keep_columns(&self, batch: &Batch) -> (r: Vec<ArrayData>)
        requires
            self.wf(),
            self.readable(batch_view(*batch)),
            self.can_hold(*batch),
        ensures
            self.are_kept(r@, batch_view(*batch)),
    {
        let ghost b = batch_view(*batch);
        let mut out: Vec<ArrayData> = Vec::new();
        let mut k: usize = 0;
        while k < self.buffered_indices.len()
            invariant
                k <= self.buffered_indices@.len(),
                self.wf(),
                b == batch_view(*batch),
                self.readable(b),
                self.can_hold(*batch),
                out@.len() == k,
                forall|i: int|
                    0 <= i < k ==> {
                        &&& array_view(#[trigger] out@[i]).data_type
                            == self.buffered_fields@[i].data_type
                        &&& Some(array_view(out@[i]).cells) == self.kept_cells(b, i)
                        &&& array_view(out@[i]).cells.len() == b.rows
                    },
            decreases self.buffered_indices@.len() - k,
        {
            assert(self.buffered_indices@[k as int] < b.columns.len());
            let src: ArrayData = column_at(batch, self.buffered_indices[k]);
            let field: &FieldSpec = &self.buffered_fields.fields[k];
            assert(self.buffered_fields@[k as int] == field@);
            match convert_array(&src, &field.data_type) {
                Some(c) => out.push(c),
                None => {
                    assert(false);
                },
            }
            k = k + 1;
        }
        proof {
            assert forall|i: int| 0 <= i < out@.len() implies {
                &&& array_view(#[trigger] out@[i]).data_type == self.buffered_fields@[i].data_type
                &&& array_view(out@[i]).cells == self.kept_columns(b)[i]
                &&& array_view(out@[i]).cells.len() == b.rows
                &&& self.buffered_fields@[i].nullable || no_nulls(array_view(out@[i]).cells)
            } by {
                let _ = self.buffered_indices@[i];
            }
        }
        out
    }

    /// Adds some rows of a batch to the open session.
    fn push_slice(
        &self,
        state: &mut SessionizeState,
        columns: &Vec<ArrayData>,
        row_start: usize,
        row_end: usize,
        Ghost(b): Ghost<BatchView>,
    )
        requires
            self.wf(),
            self.state_ok(old(state)),
            self.are_kept(columns@, b),
            row_start <= row_end <= b.rows,
        ensures
            self.state_ok(final(state)),
            final(state)@ == (SessionModel {
                open: old(state)@.open + self.kept_rows(b).subrange(
                    row_start as int,
                    row_end as int,
                ),
                ..old(state)@
            }),
            final(state).entity_id == old(state).entity_id,
    {
        let ghost m0 = state@;
        let ghost slice = self.kept_rows(b).subrange(row_start as int, row_end as int);
        if row_end <= row_start {
            assert(m0.open + slice =~= m0.open);
            return;
        }
        let len: usize = row_end - row_start;
        let mut arrays: Vec<ArrayData> = Vec::new();
        let mut k: usize = 0;
        while k < columns.len()
            invariant
                k <= columns@.len(),
                self.are_kept(columns@, b),
                row_start + len == row_end,
                row_end <= b.rows,
                arrays@.len() == k,
                forall|i: int|
                    0 <= i < k ==> {
                        &&& array_view(#[trigger] arrays@[i]).data_type
                            == self.buffered_fields@[i].data_type
                        &&& array_view(arrays@[i]).cells == self.kept_columns(b)[i].subrange(
                            row_start as int,
                            row_end as int,
                        )
                    },
            decreases columns@.len() - k,
        {
            assert(array_view(columns@[k as int]).cells == self.kept_columns(b)[k as int]);
            arrays.push(slice_array(&columns[k], row_start, len));
            k = k + 1;
        }
        let ghost views = array_views(arrays@);
        proof {
            assert forall|i: int| 0 <= i < views.len() implies {
                &&& (#[trigger] views[i]).cells.len() == len
                &&& views[i].data_type == self.buffered_fields@[i].data_type
                &&& self.buffered_fields@[i].nullable || no_nulls(views[i].cells)
            } by {
                assert(views[i] == array_view(arrays@[i]));
                assert(array_view(columns@[i]).cells == self.kept_columns(b)[i]);
                if !self.buffered_fields@[i].nullable {
                    assert forall|r: int| 0 <= r < views[i].cells.len() implies (
                    #[trigger] views[i].cells[r]) is Some by {
                        assert(views[i].cells[r] == array_view(columns@[i]).cells[row_start + r]);
                    }
                }
            }
            assert(buildable(self.buffered_fields@, views));
        }
        match new_batch(&arrow_schema(&self.buffered_fields), arrays) {
            Ok(batch) => {
                let ghost built = batch_view(batch);
                let ghost before = state.open_buffer@;
                state.open_buffer.push(batch);
                proof {
                    let all = batch_views(state.open_buffer@);
                    assert(all =~= batch_views(before).push(built));
                    lemma_flat_rows_prefix(all, batch_views(before), before.len() as int);
                    assert(conforms(built, self.buffered_fields@)) by {
                        assert forall|i: int| 0 <= i < views.len() implies {
                            &&& (#[trigger] built.columns[i]).data_type
                                == self.buffered_fields@[i].data_type
                            &&& self.buffered_fields@[i].nullable || no_nulls(
                                built.columns[i].cells,
                            )
                            &&& built.columns[i].cells.len() == built.rows
                        } by {
                            let _ = views[i];
                        }
                    }
                    assert(batch_rows(built) =~= slice) by {
                        assert forall|r: int| 0 <= r < len implies batch_rows(built)[r]
                            == slice[r] by {
                            assert forall|i: int| 0 <= i < views.len() implies
                                column_cells(built)[i][r] == self.kept_columns(b)[i][row_start + r] by {
                                assert(views[i] == array_view(arrays@[i]));
                                assert(array_view(columns@[i]).cells == self.kept_columns(b)[i]);
                            }
                            assert(row_of(column_cells(built), r).cells =~= row_of(
                                self.kept_columns(b),
                                row_start + r,
                            ).cells);
                        }
                    }
                    assert(flat_rows(all, all.len() as int) == m0.open + slice);
                    assert forall|i: int| 0 <= i < state.open_buffer@.len() implies {
                        &&& conforms(
                            #[trigger] batch_views(state.open_buffer@)[i],
                            self.buffered_fields@,
                        )
                        &&& batch_views(state.open_buffer@)[i].rows > 0
                    } by {
                        if i < before.len() {
                            assert(all[i] == batch_views(before)[i]);
                        }
                    }
                }
            },
            Err(_) => {
                assert(false);
            },
        }
    }
}

impl SessionizeOperator {
    /// Closes the open session.
    fn flush_session(&self, state: &mut SessionizeState)
        requires
            self.wf(),
            self.can_show(),
            self.state_ok(old(state)),
        ensures
            self.state_ok(final(state)),
            final(state)@ == closed(self.setup(), old(state)@),
            final(state).entity_id == old(state).entity_id,
    {
        let ghost m0 = state@;
        let ghost parts = batch_views(state.open_buffer@);
        proof {
            lemma_flat_rows_len(parts, parts.len() as int);
        }
        if state.open_buffer.len() == 0 {
            state.session_start_ts = i64::MIN;
            state.session_last_ts = i64::MIN;
            state.session_event_count = 0;
            return;
        }
        let built = arrow_schema(&self.buffered_fields);
        match join_batches(&built, &state.open_buffer) {
            Ok(joined) => {
                let ghost whole = batch_view(joined);
                proof {
                    lemma_joined_rows(parts, self.buffered_fields@, parts.len() as int);
                    assert(column_cells(whole) =~= Seq::new(
                        self.buffered_fields@.len(),
                        |j: int| joined_cells(parts, j, parts.len() as int),
                    ));
                    assert(batch_rows(whole) == m0.open);
                }
                let n: usize = num_rows(&joined);
                let duration: i64 = elapsed(state.session_last_ts, state.session_start_ts);
                let shown: Batch = self.show_session(
                    &joined,
                    n,
                    state.current_session_id,
                    duration,
                );
                let ghost before = state.completed@;
                state.completed.push(shown);
                state.open_buffer.clear();
                if state.current_session_id < i64::MAX {
                    state.current_session_id = state.current_session_id + 1;
                }
                state.session_event_count = 0;
                state.session_start_ts = i64::MIN;
                state.session_last_ts = i64::MIN;
                proof {
                    assert(batch_views(state.completed@) =~= batch_views(before).push(
                        batch_view(shown),
                    ));
                    assert(state@.done =~= closed(self.setup(), m0).done);
                    assert forall|i: int| 0 <= i < state.completed@.len() implies conforms(
                        #[trigger] batch_views(state.completed@)[i],
                        self.output_fields@,
                    ) by {
                        if i < before.len() {
                            assert(batch_views(state.completed@)[i] == batch_views(before)[i]);
                        }
                    }
                    assert(state@.open =~= Seq::empty());
                }
            },
            Err(_) => {
                assert(false);
            },
        }
    }

    /// Shows the rows of a session.
    fn show_session(&self, kept: &Batch, n: usize, session_id: i64, duration: i64) -> (r: Batch)
        requires
            self.wf(),
            self.can_show(),
            conforms(batch_view(*kept), self.buffered_fields@),
            n == batch_view(*kept).rows,
        ensures
            conforms(batch_view(r), self.output_fields@),
            batch_rows(batch_view(r)) == shown_session(
                self.setup().sources,
                session_id,
                duration,
                batch_rows(batch_view(*kept)),
            ),
    {
        let ghost whole = batch_view(*kept);
        let ghost sources = self.setup().sources;
        let mut arrays: Vec<ArrayData> = Vec::new();
        let mut j: usize = 0;
        while j < self.output_fields.fields.len()
            invariant
                j <= self.output_fields.fields@.len() == self.output_fields@.len(),
                self.wf(),
                self.can_show(),
                whole == batch_view(*kept),
                conforms(whole, self.buffered_fields@),
                n == whole.rows,
                arrays@.len() == j,
                forall|i: int|
                    0 <= i < j ==> {
                        &&& array_view(#[trigger] arrays@[i]).data_type
                            == self.output_fields@[i].data_type
                        &&& array_view(arrays@[i]).cells.len() == n
                        &&& self.output_fields@[i].nullable || no_nulls(array_view(arrays@[i]).cells)
                        &&& forall|r: int|
                            0 <= r < n ==> #[trigger] array_view(arrays@[i]).cells[r] == (
                            match self.source(i) {
                                Source::SessionId => Some(CellView::Int(session_id)),
                                Source::Duration => Some(CellView::Int(duration)),
                                Source::Kept(k) => whole.columns[k].cells[r],
                                Source::Nothing => None,
                            })
                    },
            decreases self.output_fields.fields@.len() - j,
        {
            assert(self.output_fields@[j as int] == self.output_fields.fields@[j as int]@);
            let array: ArrayData = if j == self.session_id_out_idx {
                repeated(session_id, n)
            } else if j == self.session_duration_out_idx {
                repeated(duration, n)
            } else {
                match self.output_to_buffer_slot[j] {
                    Some(k) => {
                        assert(self.output_to_buffer_slot@[j as int] is Some);
                        assert(whole.columns[k as int].data_type
                            == self.buffered_fields@[k as int].data_type);
                        column_at(kept, k)
                    },
                    None => null_array(&self.output_fields.fields[j].data_type, n),
                }
            };
            arrays.push(array);
            j = j + 1;
        }
        let ghost views = array_views(arrays@);
        proof {
            assert forall|i: int| 0 <= i < views.len() implies {
                &&& (#[trigger] views[i]).cells.len() == n
                &&& views[i].data_type == self.output_fields@[i].data_type
                &&& self.output_fields@[i].nullable || no_nulls(views[i].cells)
            } by {
                assert(views[i] == array_view(arrays@[i]));
            }
            assert(buildable(self.output_fields@, views));
        }
        match new_batch(&arrow_schema(&self.output_fields), arrays) {
            Ok(b) => {
                proof {
                    let shown = batch_view(b);
                    let rows = batch_rows(whole);
                    assert(conforms(shown, self.output_fields@)) by {
                        assert forall|i: int| 0 <= i < views.len() implies {
                            &&& (#[trigger] shown.columns[i]).data_type
                                == self.output_fields@[i].data_type
                            &&& self.output_fields@[i].nullable || no_nulls(shown.columns[i].cells)
                            &&& shown.columns[i].cells.len() == shown.rows
                        } by {
                            let _ = views[i];
                        }
                    }
                    assert forall|r: int| 0 <= r < n implies batch_rows(shown)[r] == shown_row(
                        sources,
                        session_id,
                        duration,
                        rows[r],
                    ) by {
                        assert forall|i: int| 0 <= i < sources.len() implies batch_rows(
                            shown,
                        )[r].cells[i] == shown_row(
                            sources,
                            session_id,
                            duration,
                            rows[r],
                        ).cells[i] by {
                            assert(views[i] == array_view(arrays@[i]));
                            assert(array_view(arrays@[i]).cells[r] == batch_rows(
                                shown,
                            )[r].cells[i]);
                            let _ = self.output_to_buffer_slot@[i];
                        }
                        assert(batch_rows(shown)[r].cells =~= shown_row(
                            sources,
                            session_id,
                            duration,
                            rows[r],
                        ).cells);
                    }
                    assert(batch_rows(shown) =~= shown_session(
                        sources,
                        session_id,
                        duration,
                        rows,
                    ));
                }
                b
            },
            Err(_) => {
                assert(false);
                empty_batch(&arrow_schema(&self.output_fields))
            },
        }
    }
}

/// An integer column that holds one value on every row.
fn repeated(value: i64, n: usize) -> (r: ArrayData)
    ensures
        array_view(r).data_type == physical_type(BqlType::Int),
        array_view(r).cells == Seq::new(n as nat, |i: int| Some(CellView::Int(value))),
{
    let mut values: Vec<Option<i64>> = Vec::new();
    let mut i: usize = 0;
    while i < n
        invariant
            i <= n,
            values@.len() == i,
            forall|j: int| 0 <= j < i ==> values@[j] == Some(value),
        decreases n - i,
    {
        values.push(Some(value));
        i = i + 1;
    }
    assert(int_cells(values@) =~= Seq::new(n as nat, |i: int| Some(CellView::Int(value))));
    int64_array(values)
}

/// The type column of a sub-batch: text, or codes of a dictionary.
#[derive(Debug)]
pub enum EventTypeView {
    Strings(Vec<Option<String>>),
    Dictionary { keys: Vec<Option<i32>>, codes: EndEventCodeSet },
}

impl EventTypeView {
    /// Whether this tells the end events of a column.
    pub open spec fn tells(&self, col: ArrayView, end_types: Seq<Seq<char>>) -> bool {
        match self {
            EventTypeView::Strings(v) => text_cells(v@) == col.cells && holds_names(col.data_type),
            EventTypeView::Dictionary { keys, codes } => {
                &&& keys@.len() == col.cells.len()
                &&& forall|i: int|
                    0 <= i < keys@.len() ==> is_end_row(col, end_types, i) == (
                    match #[trigger] keys@[i] {
                        Some(k) => codes.matching_codes@.contains(k),
                        None => false,
                    })
            },
        }
    }

    /// Reads a type column. Columns of other types than text and dictionaries
    /// with 32-bit codes are not supported.
    fn resolve(col: &ArrayData, end_types: &Vec<String>) -> (r: Option<Self>)
        ensures
            match r {
                Some(v) => v.tells(array_view(*col), text_views(end_types@)) && (type_kind(
                    array_view(*col).data_type,
                ) == DataKind::Utf8View || type_kind(array_view(*col).data_type)
                    == DataKind::DictInt32),
                None => type_kind(array_view(*col).data_type) != DataKind::Utf8View && type_kind(
                    array_view(*col).data_type,
                ) != DataKind::DictInt32,
            },
    {
        match string_view_values(col) {
            Some(v) => {
                return Some(EventTypeView::Strings(v));
            },
            None => {},
        }
        match dict_int32(col) {
            Some((keys, entries)) => {
                let ghost cells = array_view(*col).cells;
                let ghost held = array_view(entries).cells;
                let ghost end_names = text_views(end_types@);
                let texts: Vec<Option<String>> = match string_view_values(&entries) {
                    Some(v) => v,
                    None => match string_values(&entries) {
                        Some(v) => v,
                        None => Vec::new(),
                    },
                };
                let codes = EndEventCodeSet::build(&texts, end_types);
                proof {
                    assert forall|i: int| 0 <= i < keys@.len() implies is_end_row(
                        array_view(*col),
                        end_names,
                        i,
                    ) == (match #[trigger] keys@[i] {
                        Some(k) => codes.matching_codes@.contains(k),
                        None => false,
                    }) by {
                        if let Some(k) = keys@[i] {
                            assert(cells[i] == entry_cell(held[k as int]));
                            if holds_names(array_view(*col).data_type) {
                                assert(text_cells(texts@) == held);
                            } else {
                                assert(!codes.matching_codes@.contains(k));
                            }
                        }
                    }
                }
                Some(EventTypeView::Dictionary { keys, codes })
            },
            None => None,
        }
    }

    /// Whether a row is an end event.
    fn is_end_event(
        &self,
        row: usize,
        end_types: &Vec<String>,
        Ghost(col): Ghost<ArrayView>,
    ) -> (r: bool)
        requires
            self.tells(col, text_views(end_types@)),
            row < col.cells.len(),
        ensures
            r == is_end_row(col, text_views(end_types@), row as int),
    {
        match self {
            EventTypeView::Strings(v) => {
                assert(text_cells(v@)[row as int] == col.cells[row as int]);
                match &v[row] {
                    Some(name) => text_in(end_types, name.as_str()),
                    None => false,
                }
            },
            EventTypeView::Dictionary { keys, codes } => match keys[row] {
                Some(k) => codes.contains_code(k),
                None => false,
            },
        }
    }
}

/// An entity with some rows of the open session not yet added.
spec fn with_pending(m: SessionModel, rows: Seq<RowCells>) -> SessionModel {
    SessionModel { open: m.open + rows, ..m }
}

/// The events of an entity that is skipped are only counted.
proof fn lemma_skipping_stays(
    setup: SessionSetup,
    m: SessionModel,
    stamps: Seq<i64>,
    ends: Seq<bool>,
    rows: Seq<RowCells>,
    k: int,
    n: int,
)
    requires
        0 <= k <= n,
        after_events(setup, m, stamps, ends, rows, k).skipping,
    ensures
        ({
            let at = after_events(setup, m, stamps, ends, rows, k);
            after_events(setup, m, stamps, ends, rows, n) == (SessionModel {
                events: more_events(at.events, (n - k) as nat),
                ..at
            })
        }),
    decreases n - k,
{
    if k < n {
        lemma_skipping_stays(setup, m, stamps, ends, rows, k, n - 1);
    }
}

impl SessionizeOperator {
    /// Takes in the events of a sub-batch.
    fn process_rows(
        &self,
        state: &mut SessionizeState,
        columns: &Vec<ArrayData>,
        timestamps: &Vec<i64>,
        types: &Option<EventTypeView>,
        Ghost(b): Ghost<BatchView>,
    )
        requires
            self.wf(),
            self.can_show(),
            self.state_ok(old(state)),
            self.are_kept(columns@, b),
            timestamps@ == self.stamps(b),
            timestamps@.len() == b.rows,
            types is Some == self.event_type_idx is Some,
            types matches Some(v) ==> v.tells(
                b.columns[self.event_type_idx->0 as int],
                text_views(self.end_events_list@),
            ) && b.columns[self.event_type_idx->0 as int].cells.len() == b.rows,
            !old(state)@.skipping,
        ensures
            self.state_ok(final(state)),
            final(state)@ == after_events(
                self.setup(),
                old(state)@,
                self.stamps(b),
                self.ends(b),
                self.kept_rows(b),
                b.rows as int,
            ),
            final(state).entity_id == old(state).entity_id,
    {
        let ghost setup = self.setup();
        let ghost m0 = state@;
        let ghost stamps = self.stamps(b);
        let ghost ends = self.ends(b);
        let ghost rows = self.kept_rows(b);
        let n: usize = timestamps.len();
        let mut slice_start: usize = 0;
        let mut row: usize = 0;
        assert(with_pending(state@, rows.subrange(0, 0)).open =~= m0.open);
        while row < n
            invariant
                slice_start <= row <= n == b.rows,
                rows.len() == n,
                ends.len() == n,
                stamps.len() == n,
                setup == self.setup(),
                stamps == self.stamps(b),
                ends == self.ends(b),
                rows == self.kept_rows(b),
                m0 == old(state)@,
                self.wf(),
                self.can_show(),
                self.state_ok(state),
                self.are_kept(columns@, b),
                timestamps@ == stamps,
                types is Some == self.event_type_idx is Some,
                types matches Some(v) ==> v.tells(
                    b.columns[self.event_type_idx->0 as int],
                    text_views(self.end_events_list@),
                ) && b.columns[self.event_type_idx->0 as int].cells.len() == b.rows,
                !state@.skipping,
                state.entity_id == old(state).entity_id,
                with_pending(state@, rows.subrange(slice_start as int, row as int))
                    == after_events(setup, m0, stamps, ends, rows, row as int),
            decreases n - row,
        {
            let ts: i64 = timestamps[row];
            let end: bool = match types {
                Some(v) => v.is_end_event(
                    row,
                    &self.end_events_list,
                    Ghost(b.columns[self.event_type_idx->0 as int]),
                ),
                None => false,
            };
            assert(end == ends[row as int]);
            let ghost m = after_events(setup, m0, stamps, ends, rows, row as int);
            let ghost want = after_events(setup, m0, stamps, ends, rows, row + 1);
            let ghost this = rows[row as int];
            assert(want == after_event_row(setup, m, ts, end, this));
            state.entity_event_count = state.entity_event_count.saturating_add(1);
            if state.session_start_ts == i64::MIN {
                state.session_start_ts = ts;
                state.session_last_ts = ts;
                state.session_event_count = 1;
            } else if elapsed(ts, state.session_last_ts) > self.gap_ns {
                self.push_slice(state, columns, slice_start, row, Ghost(b));
                self.flush_session(state);
                slice_start = row;
                state.session_start_ts = ts;
                state.session_last_ts = ts;
                state.session_event_count = 1;
            } else {
                state.session_last_ts = ts;
                state.session_event_count = state.session_event_count.saturating_add(1);
                if state.session_event_count > self.session_event_cap {
                    proof {
                        assert((state@.open + rows.subrange(slice_start as int, row + 1))
                            =~= m.open.push(this));
                    }
                    self.push_slice(state, columns, slice_start, row + 1, Ghost(b));
                    self.flush_session(state);
                    state.cap_exceeded = true;
                    state.skipping = true;
                    assert(state@ == want);
                    let rest: usize = n - row - 1;
                    state.entity_event_count = state.entity_event_count.saturating_add(rest as u64);
                    proof {
                        lemma_skipping_stays(
                            setup,
                            m0,
                            stamps,
                            ends,
                            rows,
                            row + 1,
                            n as int,
                        );
                    }
                    return;
                }
            }
            proof {
                assert((state@.open + rows.subrange(slice_start as int, row + 1)) =~= (state@.open
                    + rows.subrange(slice_start as int, row as int)).push(this));
            }
            if end {
                self.push_slice(state, columns, slice_start, row + 1, Ghost(b));
                self.flush_session(state);
                slice_start = row + 1;
            }
            proof {
                if end {
                    assert((state@.open + rows.subrange(row + 1, row + 1)) =~= state@.open);
                }
                assert(with_pending(state@, rows.subrange(slice_start as int, row + 1)) == want);
            }
            row = row + 1;
        }
        self.push_slice(state, columns, slice_start, n, Ghost(b));
    }
}

impl EntityOperator for SessionizeOperator {
    type State = SessionizeState;

    open spec fn accepts(&self, state: &SessionizeState, batch: &Batch) -> bool {
        &&& self.wf()
        &&& self.can_show()
        &&& self.state_ok(state)
        &&& state@.skipping || batch_view(*batch).rows == 0 || (self.readable(batch_view(*batch))
            && self.can_hold(*batch))
    }

    open spec fn can_finish(&self, state: &SessionizeState) -> bool {
        &&& self.wf()
        &&& self.can_show()
        &&& self.state_ok(state)
    }

    open spec fn can_feed(&self, state: &SessionizeState) -> bool {
        self.can_finish(state)
    }

    fn create_state(&self, entity_id: &EntityId) -> (r: SessionizeState)
        ensures
            r@ == no_sessions(),
            r.entity_id == *entity_id,
            self.state_ok(&r),
    {
        let r = SessionizeState {
            entity_id: entity_id.duplicate(),
            current_session_id: 1,
            session_start_ts: i64::MIN,
            session_last_ts: i64::MIN,
            open_buffer: Vec::new(),
            session_event_count: 0,
            entity_event_count: 0,
            completed: Vec::new(),
            cap_exceeded: false,
            skipping: false,
        };
        proof {
            assert(r@.open =~= Seq::empty());
            assert(r@.done =~= Seq::empty());
        }
        r
    }

    fn output_schema(&self) -> (r: &OperatorSchema)
        ensures
            *r == self.output_schema,
    {
        &self.output_schema
    }

    fn process_sub_batch(&self, state: &mut SessionizeState, batch: &Batch)
        ensures
            self.state_ok(final(state)),
            final(state)@ == after_sub_batch(
                self.setup(),
                old(state)@,
                self.stamps(batch_view(*batch)),
                self.ends(batch_view(*batch)),
                self.kept_rows(batch_view(*batch)),
            ),
            final(state).entity_id == old(state).entity_id,
    {
        let ghost b = batch_view(*batch);
        assert(self.kept_rows(b).len() == b.rows);
        let n: usize = num_rows(batch);
        if state.skipping {
            proof {
                lemma_skipping_stays(
                    self.setup(),
                    state@,
                    self.stamps(b),
                    self.ends(b),
                    self.kept_rows(b),
                    0,
                    n as int,
                );
            }
            state.entity_event_count = state.entity_event_count.saturating_add(n as u64);
            return;
        }
        if n == 0 {
            return;
        }
        let columns: Vec<ArrayData> = self.keep_columns(batch);
        let types: Option<EventTypeView> = match self.event_type_idx {
            Some(c) => EventTypeView::resolve(&column_at(batch, c), &self.end_events_list),
            None => None,
        };
        match timestamp_values(&column_at(batch, self.ts_idx)) {
            Some(timestamps) => {
                self.process_rows(state, &columns, &timestamps, &types, Ghost(b));
            },
            None => {
                assert(false);
            },
        }
    }

    fn finish_entity(&self, state: SessionizeState) -> (r: Option<Batch>)
        ensures
            match r {
                Some(b) => {
                    &&& batch_view(b).rows > 0
                    &&& batch_view(b).fields == schema_fields(self.output_schema@)
                    &&& conforms(batch_view(b), schema_fields(self.output_schema@))
                    &&& batch_rows(batch_view(b)) == self.shown_rows(state@)
                },
                None => self.shown_rows(state@).len() == 0,
            },
    {
        let mut state = state;
        if !state.skipping && state.session_start_ts != i64::MIN {
            self.flush_session(&mut state);
        }
        if state.completed.len() == 0 {
            return None;
        }
        let ghost parts = batch_views(state.completed@);
        match join_batches(&arrow_schema(&self.output_fields), &state.completed) {
            Ok(joined) => {
                proof {
                    let whole = batch_view(joined);
                    lemma_joined_rows(parts, self.output_fields@, parts.len() as int);
                    assert(column_cells(whole) =~= Seq::new(
                        self.output_fields@.len(),
                        |j: int| joined_cells(parts, j, parts.len() as int),
                    ));
                    lemma_flat_sessions(parts, state@.done, parts.len() as int);
                    assert(batch_rows(whole).len() == whole.rows);
                }
                if num_rows(&joined) == 0 {
                    return None;
                }
                Some(joined)
            },
            Err(_) => {
                assert(false);
                None
            },
        }
    }

    fn finish_entity_into<A: Accumulator>(&self, state: SessionizeState, accumulator: &mut A) -> (r:
        Result<(), BqliteError>)
        ensures
            if self.shown_rows(state@).len() > 0 {
                exists|b: Batch, m: &mut A|
                    {
                        &&& batch_view(b).fields == schema_fields(self.output_schema@)
                        &&& batch_rows(batch_view(b)) == self.shown_rows(state@)
                        &&& *m == *old(accumulator)
                        &&& *final(m) == *final(accumulator)
                        &&& #[trigger] call_ensures(A::update_batch, (m, &b), r)
                    }
            } else {
                r is Ok && *final(accumulator) == *old(accumulator)
            },
    {
        match self.finish_entity(state) {
            Some(batch) => accumulator.update_batch(&batch),
            None => Ok(()),
        }
    }

    fn take_pending_warnings(&self, state: &mut SessionizeState, entity_id: &EntityId) -> (r: Vec<
        QueryWarning,
    >)
        ensures
            if old(state)@.cap_exceeded {
                &&& r@.len() == 1
                &&& r@[0] matches QueryWarning::SessionEventCapExceeded {
                    entity_id: id,
                    event_count,
                    cap,
                } && id@ == old(state).entity_id.text() && event_count == old(state)@.events && cap
                    == self.session_event_cap
                &&& final(state)@ == (SessionModel { cap_exceeded: false, ..old(state)@ })
            } else {
                r@.len() == 0 && *final(state) == *old(state)
            },
            self.state_ok(old(state)) ==> self.state_ok(final(state)),
    {
        let mut out: Vec<QueryWarning> = Vec::new();
        if state.cap_exceeded {
            state.cap_exceeded = false;
            out.push(
                QueryWarning::SessionEventCapExceeded {
                    entity_id: state.entity_id.to_text(),
                    event_count: state.entity_event_count,
                    cap: self.session_event_cap as u64,
                },
            );
        }
        out
    }

    fn required_columns(&self) -> (r: &[String])
        ensures
            r@ == self.required_column_names@,
    {
        self.required_column_names.as_slice()
    }

    fn supported_demands(&self) -> (r: DemandCapabilities)
        ensures
            r == (DemandCapabilities { supports_forwarded_columns: true, ..no_capabilities() }),
    {
        let mut r = DemandCapabilities::none();
        r.supports_forwarded_columns = true;
        r
    }
}

proof fn lemma_flat_sessions(batches: Seq<BatchView>, sessions: Seq<Seq<RowCells>>, n: int)
    requires
        n <= batches.len() == sessions.len(),
        forall|i: int| 0 <= i < batches.len() ==> #[trigger] sessions[i] == batch_rows(batches[i]),
    ensures
        flat_rows(batches, n) == flat_sessions(sessions, n),
    decreases n,
{
    if n > 0 {
        lemma_flat_sessions(batches, sessions, n - 1);
        assert(sessions[n - 1] == batch_rows(batches[n - 1]));
    }
}

} // verus!
