//! The decisions of a table scan.
//!
//! A scan opens every segment of a table, merges their rows by entity and time,
//! and drops what its predicates and its sample do not keep. Reading segments is
//! left to a driver. The scan tells it what to open and how to wrap it, what to
//! pull next, and what to do with what was pulled.
//!
//! Rows can be read in two ways. On the materialized path every row group is
//! decoded, and the predicates are evaluated on record batches. On the encoded
//! path the predicates that compare a column with a constant are applied to the
//! encoded row groups first, and only the selected rows are decoded. A segment
//! with deletes is wrapped exactly once, in the way that fits the path. A single
//! segment without deletes needs no merge on the encoded path.

use vstd::prelude::*;
use vstd::string::*;

use super::path::ScanPath;
use super::predicate::{ConjunctView, ScanConjunct, ScanPredicate, build_scan_predicate,
    conjunct_views, lower_compiled_predicates, lowered_exprs, predicate_of};
use crate::error::BqliteError;
use crate::expr::CompiledExpr;
use crate::operator::CancellationToken;
use crate::schema::{BATCH_ID_COLUMN, BqlType, ColumnDef, ColumnProjection, ColumnView,
    OperatorSchema, SEQ_ID_COLUMN, TableSchema, column_position, column_view, column_views,
    duplicate_column_text, find_column, first_duplicate, lemma_column_position, names_unique,
    system_columns};
use crate::text::{copy_texts, join3, text_eq, text_in, text_views};
use crate::value::PropertyValue;

verus! {

/// Whether a name is one of the system columns of a table.
pub open spec fn is_table_system(name: Seq<char>) -> bool {
    name == SEQ_ID_COLUMN@ || name == BATCH_ID_COLUMN@
}

/// Whether a scan can read a column.
pub open spec fn is_known(declared: Seq<ColumnView>, name: Seq<char>) -> bool {
    column_position(declared, name, 0) is Some || is_table_system(name)
}

/// The first name, from `i` on, that is not known.
pub open spec fn first_unknown(
    declared: Seq<ColumnView>,
    names: Seq<Seq<char>>,
    i: int,
) -> Option<int>
    decreases names.len() - i,
{
    if i >= names.len() {
        None
    } else if !is_known(declared, names[i]) {
        Some(i)
    } else {
        first_unknown(declared, names, i + 1)
    }
}

/// The first `n` declared columns, as far as they are named.
pub open spec fn named_columns(
    declared: Seq<ColumnView>,
    names: Seq<Seq<char>>,
    n: int,
) -> Seq<ColumnView>
    decreases n,
{
    if n <= 0 {
        Seq::empty()
    } else if names.contains(declared[n - 1].name) {
        named_columns(declared, names, n - 1).push(declared[n - 1])
    } else {
        named_columns(declared, names, n - 1)
    }
}

/// The system columns among the first `n` names.
pub open spec fn named_system(names: Seq<Seq<char>>, n: int) -> Seq<ColumnView>
    decreases n,
{
    if n <= 0 {
        Seq::empty()
    } else if is_table_system(names[n - 1]) {
        named_system(names, n - 1).push(column_view(names[n - 1], BqlType::Int, false))
    } else {
        named_system(names, n - 1)
    }
}

/// The columns that a scan returns: all, or the named ones, declared columns in
/// the order of the table and then system columns in the order of the names.
pub open spec fn scan_columns(declared: Seq<ColumnView>, names: Seq<Seq<char>>) -> Seq<ColumnView> {
    if names.len() == 0 {
        declared + system_columns()
    } else {
        named_columns(declared, names, declared.len() as int) + named_system(
            names,
            names.len() as int,
        )
    }
}

/// The error for a name that is not known.
pub open spec fn unknown_column_text(name: Seq<char>, table: Seq<char>) -> Seq<char> {
    "scan: projected column `"@ + name + "` not in table `"@ + table
        + "` and is not a recognised system column"@
}

/// Whether an error is about the columns of a scan: an unknown name, or a column
/// that occurs twice.
pub open spec fn column_error(
    e: BqliteError,
    table: &TableSchema,
    names: Seq<Seq<char>>,
) -> bool {
    let columns = scan_columns(table.declared(), names);
    e is Schema && match first_unknown(table.declared(), names, 0) {
        Some(i) => e.text() == unknown_column_text(names[i], table.name@),
        None => first_duplicate(columns, 0) matches Some(i) && e.text() == duplicate_column_text(
            columns[i].name,
        ),
    }
}

/// Whether a scan can return the named columns.
pub open spec fn columns_ok(table: &TableSchema, names: Seq<Seq<char>>) -> bool {
    &&& first_unknown(table.declared(), names, 0) is None
    &&& names_unique(scan_columns(table.declared(), names))
}

/// The columns that a scan returns.
pub fn build_output_schema(table: &TableSchema, projection: &ColumnProjection) -> (r: Result<
    OperatorSchema,
    BqliteError,
>)
    ensures
        match r {
            Ok(s) => s@ == scan_columns(table.declared(), text_views(projection.names@)) && s.wf(),
            Err(e) => column_error(e, table, text_views(projection.names@)),
        },
        r is Ok <==> columns_ok(table, text_views(projection.names@)),
{
    let ghost declared = table.declared();
    let ghost names = text_views(projection.names@);
    assert(names.len() == projection.names@.len());
    if projection.is_all() {
        let all: Vec<ColumnDef> = table.logical_columns();
        proof {
            assert(column_views(all@) == scan_columns(declared, names));
            lemma_first_duplicate_range(column_views(all@), 0);
        }
        return OperatorSchema::new(all);
    }
    let mut i: usize = 0;
    while i < projection.names.len()
        invariant
            i <= projection.names@.len(),
            declared == table.declared(),
            names == text_views(projection.names@),
            first_unknown(declared, names, 0) == first_unknown(declared, names, i as int),
        decreases projection.names@.len() - i,
    {
        let name: &str = projection.names[i].as_str();
        assert(names[i as int] == name@);
        if find_column(&table.columns, name).is_none() && !text_eq(name, SEQ_ID_COLUMN) && !text_eq(
            name,
            BATCH_ID_COLUMN,
        ) {
            let mut text: String = join3("scan: projected column `", name, "` not in table `");
            text.append(table.name.as_str());
            text.append("` and is not a recognised system column");
            return Err(BqliteError::Schema(text));
        }
        i = i + 1;
    }
    let mut out: Vec<ColumnDef> = Vec::new();
    let mut c: usize = 0;
    assert(column_views(out@) =~= named_columns(declared, names, 0));
    while c < table.columns.len()
        invariant
            c <= table.columns@.len(),
            declared == table.declared(),
            names == text_views(projection.names@),
            column_views(out@) == named_columns(declared, names, c as int),
        decreases table.columns@.len() - c,
    {
        let col: &ColumnDef = &table.columns[c];
        assert(declared[c as int] == col@);
        if text_in(&projection.names, col.name.as_str()) {
            let ghost before = column_views(out@);
            out.push(col.duplicate());
            assert(column_views(out@) =~= before.push(col@));
        }
        c = c + 1;
    }
    let ghost kept = column_views(out@);
    let mut k: usize = 0;
    assert(column_views(out@) =~= kept + named_system(names, 0));
    while k < projection.names.len()
        invariant
            k <= projection.names@.len(),
            names == text_views(projection.names@),
            column_views(out@) == kept + named_system(names, k as int),
        decreases projection.names@.len() - k,
    {
        let name: &str = projection.names[k].as_str();
        assert(names[k as int] == name@);
        let ghost before = column_views(out@);
        if text_eq(name, SEQ_ID_COLUMN) {
            out.push(ColumnDef::required(SEQ_ID_COLUMN, BqlType::Int));
            assert(column_views(out@) =~= before.push(out@.last()@));
            assert(before.push(out@.last()@) =~= kept + named_system(names, k + 1));
        } else if text_eq(name, BATCH_ID_COLUMN) {
            out.push(ColumnDef::required(BATCH_ID_COLUMN, BqlType::Int));
            assert(column_views(out@) =~= before.push(out@.last()@));
            assert(before.push(out@.last()@) =~= kept + named_system(names, k + 1));
        }
        k = k + 1;
    }
    proof {
        assert(column_views(out@) == scan_columns(declared, names));
        lemma_first_duplicate_range(column_views(out@), 0);
    }
    OperatorSchema::new(out)
}

proof fn lemma_first_duplicate_range(columns: Seq<ColumnView>, i: int)
    requires
        0 <= i,
    ensures
        first_duplicate(columns, i) matches Some(k) ==> i <= k < columns.len(),
    decreases columns.len() - i,
{
    if i < columns.len() {
        lemma_first_duplicate_range(columns, i + 1);
    }
}

/// A predicate that compares a column with a constant for equality, in the form
/// that is applied to encoded row groups.
#[derive(Debug)]
pub struct EncodedEqShape {
    /// The position of the column in the output of the scan.
    pub col_index: usize,
    pub value: PropertyValue,
}

/// The predicates of a scan, divided into those that are applied to encoded row
/// groups and the rest.
#[derive(Debug)]
pub struct EncodedPartition {
    pub shapes: Vec<EncodedEqShape>,
    pub residual: Vec<CompiledExpr>,
}

/// What an entity-level sample keeps.
#[derive(Debug, Clone, Copy, PartialEq, Eq, Structural)]
pub enum SampleKind {
    /// Every entity.
    PassThrough,
    /// No entity.
    EmptySet,
    /// Some entities.
    Partial,
}

/// What an opened scan pulls from.
#[derive(Debug, Clone, Copy, PartialEq, Eq, Structural)]
pub enum ScanHolder {
    /// Nothing: the scan is not open.
    Closed,
    /// One segment, encoded.
    EncodedScan,
    /// A merge of encoded segments.
    EncodedMerge,
    /// A merge of decoded segments.
    Merge,
}

/// What the storage layer is given to skip row groups by.
#[derive(Debug, Clone, Copy, PartialEq, Eq, Structural)]
pub enum ZonePredicate {
    Nothing,
    /// The tests of the pushed predicates.
    Tests,
    /// The sample.
    Sample,
    /// Both of them.
    Both,
}

/// How the deletes of a segment are applied.
#[derive(Debug, Clone, Copy, PartialEq, Eq, Structural)]
pub enum SegmentWrap {
    /// There are none.
    Plain,
    /// To decoded batches.
    Materialized,
    /// To encoded row groups, below the predicates.
    Encoded,
}

/// What to do first when a scan is opened.
#[derive(Debug, Clone, Copy, PartialEq, Eq, Structural)]
pub enum OpenStart {
    /// Nothing: no row can be kept.
    Nothing,
    /// Open every segment with this predicate.
    Segments(ZonePredicate),
}

/// Which predicates are evaluated on decoded rows.
#[derive(Debug, Clone, Copy, PartialEq, Eq, Structural)]
pub enum FilterList {
    All,
    Residual,
    Nothing,
}

/// What was pulled or computed.
#[derive(Debug, Clone, Copy, PartialEq, Eq, Structural)]
pub enum ScanEvent {
    /// There is nothing more to pull.
    End,
    /// An encoded row group with this number of rows.
    RowGroup(usize),
    /// A selection of this number of rows of the row group.
    Selected(usize),
    /// A decoded batch with this number of rows.
    Decoded(usize),
    /// This number of rows was kept by the predicates and the sample.
    Filtered(usize),
}

/// What to do next.
#[derive(Debug, Clone, Copy, PartialEq, Eq, Structural)]
pub enum ScanAction {
    /// Report the end.
    Finish,
    /// Return the batch.
    Emit,
    /// Apply the encoded predicates to the row group.
    Select,
    /// Decode the selected rows.
    Decode,
    /// Evaluate these predicates and the sample on the batch.
    Filter(FilterList),
    /// Pull again.
    Pull,
    /// Pull again, unless the query was cancelled.
    PullUnlessCancelled,
}

/// A table scan.
#[derive(Debug)]
pub struct ScanOperator {
    pub projection: ColumnProjection,
    /// The tests that the storage layer is given.
    pub scan_predicate: Option<ScanPredicate>,
    /// The pushed predicates.
    pub post_filters: Vec<CompiledExpr>,
    pub cancel: CancellationToken,
    pub output_schema: OperatorSchema,
    /// The position of the entity column in the output.
    pub entity_col: usize,
    /// The position of the time column in the output.
    pub ts_col: usize,
    pub holder: ScanHolder,
    /// Whether the scan has come to its end.
    pub exhausted: bool,
    pub scan_path: ScanPath,
    /// The types of the output columns.
    pub types: Vec<BqlType>,
    /// The predicates that are applied to encoded row groups.
    pub encoded_shapes: Vec<EncodedEqShape>,
    /// The predicates that are not.
    pub encoded_residual: Vec<CompiledExpr>,
    pub entity_key_name: String,
    pub ts_col_name: String,
    pub sample: Option<SampleKind>,
    /// Tests that do not come from a pushed predicate.
    pub extra_conjuncts: Vec<ScanConjunct>,
    /// Which parts of the table have deletes.
    pub tombstones: TombstoneSnapshot,
}

/// Which parts of a table have deletes, as of the start of a query: the windows and
/// shards of which there is at least one.
#[derive(Debug)]
pub struct TombstoneSnapshot {
    pub shards: Vec<(u32, u16)>,
}

impl TombstoneSnapshot {
    /// Whether there are deletes for a segment. A window or a shard that is out of
    /// range has none.
    pub open spec fn covers(&self, window_id: u64, shard_id: u32) -> bool {
        exists|i: int|
            0 <= i < self.shards@.len() && (#[trigger] self.shards@[i]).0 == window_id
                && self.shards@[i].1 == shard_id
    }

    /// No deletes.
    pub fn empty() -> (r: Self)
        ensures
            r.shards@.len() == 0,
    {
        TombstoneSnapshot { shards: Vec::new() }
    }

    /// Whether there are deletes for a segment.
    pub fn has_deletes(&self, window_id: u64, shard_id: u32) -> (r: bool)
        ensures
            r == self.covers(window_id, shard_id),
    {
        match snapshot_key(window_id, shard_id) {
            Some((window, shard)) => {
                let mut i: usize = 0;
                while i < self.shards.len()
                    invariant
                        i <= self.shards@.len(),
                        window == window_id,
                        shard == shard_id,
                        forall|j: int|
                            0 <= j < i ==> (#[trigger] self.shards@[j]).0 != window_id
                                || self.shards@[j].1 != shard_id,
                    decreases self.shards@.len() - i,
                {
                    if self.shards[i].0 == window && self.shards[i].1 == shard {
                        assert(self.shards@[i as int].0 == window_id);
                        return true;
                    }
                    i = i + 1;
                }
                false
            },
            None => false,
        }
    }
}

/// The error for a scan without its entity column.
pub open spec fn no_entity_text(name: Seq<char>) -> Seq<char> {
    "scan: projection must include the entity-key column `"@ + name + "`"@
}

/// The error for a scan without its time column.
pub open spec fn no_timestamp_text(name: Seq<char>) -> Seq<char> {
    "scan: projection must include the timestamp column `"@ + name + "`"@
}

/// Whether a result is a closed scan of the given columns, or says why there is none.
pub open spec fn set_up(
    r: Result<ScanOperator, BqliteError>,
    table: &TableSchema,
    names: Seq<Seq<char>>,
) -> bool {
    let columns = scan_columns(table.declared(), names);
    let entity = table.declared()[table.entity_key as int].name;
    let time = table.declared()[table.timestamp as int].name;
    match r {
        Ok(op) => {
            &&& columns_ok(table, names)
            &&& op.output_schema@ == columns
            &&& Some(op.entity_col as int) == column_position(columns, entity, 0)
            &&& Some(op.ts_col as int) == column_position(columns, time, 0)
            &&& op.entity_key_name@ == entity
            &&& op.ts_col_name@ == time
            &&& op.types@ == column_types(columns)
            &&& op.holder == ScanHolder::Closed
            &&& !op.exhausted
            &&& op.sample is None
            &&& op.extra().len() == 0
        },
        Err(e) => {
            if !columns_ok(table, names) {
                column_error(e, table, names)
            } else if column_position(columns, entity, 0) is None {
                e is Schema && e.text() == no_entity_text(entity)
            } else {
                &&& column_position(columns, time, 0) is None
                &&& e is Schema
                &&& e.text() == no_timestamp_text(time)
            }
        },
    }
}

/// The types of columns.
pub open spec fn column_types(columns: Seq<ColumnView>) -> Seq<BqlType> {
    Seq::new(columns.len(), |i: int| columns[i].bql_type)
}

/// Whether a scan keeps its rows encoded where it can.
pub open spec fn is_encoded(path: ScanPath) -> bool {
    path != ScanPath::Materialized
}

/// What the storage layer is given to skip row groups by. A sample that keeps
/// every entity is of no use to it.
pub open spec fn zone_of(has_tests: bool, sample: Option<SampleKind>) -> ZonePredicate {
    let sampled = sample matches Some(k) && k != SampleKind::PassThrough;
    match (has_tests, sampled) {
        (false, false) => ZonePredicate::Nothing,
        (true, false) => ZonePredicate::Tests,
        (false, true) => ZonePredicate::Sample,
        (true, true) => ZonePredicate::Both,
    }
}

/// How the deletes of a segment are applied.
pub open spec fn wrap_of(path: ScanPath, tombstoned: bool) -> SegmentWrap {
    if !tombstoned {
        SegmentWrap::Plain
    } else if is_encoded(path) {
        SegmentWrap::Encoded
    } else {
        SegmentWrap::Materialized
    }
}

/// What an opened scan pulls from, given which segments have deletes.
pub open spec fn holder_of(path: ScanPath, tombstoned: Seq<bool>) -> ScanHolder {
    if !is_encoded(path) {
        ScanHolder::Merge
    } else if tombstoned.len() == 1 && !tombstoned[0] {
        ScanHolder::EncodedScan
    } else {
        ScanHolder::EncodedMerge
    }
}

impl ScanOperator {
    /// Which predicates are evaluated on decoded rows.
    pub open spec fn filters(&self) -> FilterList {
        if self.holder == ScanHolder::Merge || self.encoded_shapes@.len() == 0 {
            FilterList::All
        } else if self.encoded_residual@.len() == 0 {
            FilterList::Nothing
        } else {
            FilterList::Residual
        }
    }

    /// The tests that the scan is given beyond those of its predicates.
    pub open spec fn extra(&self) -> Seq<ConjunctView> {
        conjunct_views(self.extra_conjuncts@)
    }

    /// The tests that the scan has.
    pub open spec fn tests(&self) -> Seq<ConjunctView> {
        predicate_of(self.scan_predicate)
    }

    /// A scan of some columns of a table (all, when no name is given) that keeps
    /// the rows on which the predicates hold and that are not deleted. Fails where a
    /// column is not known or occurs twice, and where the entity column or the time
    /// column is left out.
    pub fn with_tombstones_and_scan_path(
        table: &TableSchema,
        projected_columns: &Vec<String>,
        scan_predicates: Vec<CompiledExpr>,
        partition: EncodedPartition,
        cancel: CancellationToken,
        scan_path: ScanPath,
        tombstones: TombstoneSnapshot,
    ) -> (r: Result<Self, BqliteError>)
        requires
            table.wf(),
        ensures
            set_up(r, table, text_views(projected_columns@)),
            r matches Ok(op) ==> {
                &&& op.projection.names@ == projected_columns@
                &&& op.post_filters == scan_predicates
                &&& op.tests() == lowered_exprs(scan_predicates@, scan_predicates@.len() as int)
                &&& op.scan_path == scan_path
                &&& op.cancel == cancel
                &&& op.tombstones == tombstones
                &&& is_encoded(scan_path) ==> op.encoded_shapes == partition.shapes
                    && op.encoded_residual == partition.residual
                &&& !is_encoded(scan_path) ==> op.encoded_shapes@.len() == 0
                    && op.encoded_residual@.len() == 0
            },
    {
        let projection = ColumnProjection::with_columns(copy_texts(projected_columns));
        let output_schema: OperatorSchema = match build_output_schema(table, &projection) {
            Ok(s) => s,
            Err(e) => {
                return Err(e);
            },
        };
        let entity: &String = table.entity_key_name();
        let time: &String = table.timestamp_name();
        let entity_col: usize = match find_column(&output_schema.columns, entity.as_str()) {
            Some(i) => i,
            None => {
                return Err(
                    BqliteError::Schema(
                        join3(
                            "scan: projection must include the entity-key column `",
                            entity.as_str(),
                            "`",
                        ),
                    ),
                );
            },
        };
        let ts_col: usize = match find_column(&output_schema.columns, time.as_str()) {
            Some(i) => i,
            None => {
                return Err(
                    BqliteError::Schema(
                        join3(
                            "scan: projection must include the timestamp column `",
                            time.as_str(),
                            "`",
                        ),
                    ),
                );
            },
        };
        let mut types: Vec<BqlType> = Vec::new();
        let mut i: usize = 0;
        while i < output_schema.columns.len()
            invariant
                i <= output_schema.columns@.len(),
                types@.len() == i,
                forall|j: int|
                    0 <= j < i ==> types@[j] == (#[trigger] output_schema@[j]).bql_type,
            decreases output_schema.columns@.len() - i,
        {
            types.push(output_schema.columns[i].bql_type);
            i = i + 1;
        }
        assert(types@ =~= column_types(output_schema@));
        let scan_predicate = build_scan_predicate(&scan_predicates);
        let (encoded_shapes, encoded_residual) = if scan_path == ScanPath::Materialized {
            (Vec::new(), Vec::new())
        } else {
            (partition.shapes, partition.residual)
        };
        Ok(
            ScanOperator {
                projection,
                scan_predicate,
                post_filters: scan_predicates,
                cancel,
                entity_col,
                ts_col,
                holder: ScanHolder::Closed,
                exhausted: false,
                scan_path,
                types,
                encoded_shapes,
                encoded_residual,
                entity_key_name: entity.clone(),
                ts_col_name: time.clone(),
                output_schema,
                sample: None,
                extra_conjuncts: Vec::new(),
                tombstones,
            },
        )
    }

    /// A scan of some columns of a table without deletes.
    pub fn with_scan_path(
        table: &TableSchema,
        projected_columns: &Vec<String>,
        scan_predicates: Vec<CompiledExpr>,
        partition: EncodedPartition,
        cancel: CancellationToken,
        scan_path: ScanPath,
    ) -> (r: Result<Self, BqliteError>)
        requires
            table.wf(),
        ensures
            set_up(r, table, text_views(projected_columns@)),
            r matches Ok(op) ==> {
                &&& op.projection.names@ == projected_columns@
                &&& op.post_filters == scan_predicates
                &&& op.tests() == lowered_exprs(scan_predicates@, scan_predicates@.len() as int)
                &&& op.scan_path == scan_path
                &&& op.cancel == cancel
                &&& op.tombstones.shards@.len() == 0
                &&& is_encoded(scan_path) ==> op.encoded_shapes == partition.shapes
                    && op.encoded_residual == partition.residual
                &&& !is_encoded(scan_path) ==> op.encoded_shapes@.len() == 0
                    && op.encoded_residual@.len() == 0
            },
    {
        ScanOperator::with_tombstones_and_scan_path(
            table,
            projected_columns,
            scan_predicates,
            partition,
            cancel,
            scan_path,
            TombstoneSnapshot::empty(),
        )
    }

    /// A scan of all columns and all rows of a table.
    pub fn full_scan(table: &TableSchema, scan_path: ScanPath) -> (r: Result<Self, BqliteError>)
        requires
            table.wf(),
        ensures
            set_up(r, table, Seq::empty()),
            r is Ok <==> names_unique(table.declared() + system_columns()),
            r matches Ok(op) ==> {
                &&& op.output_schema@ == table.declared() + system_columns()
                &&& op.projection.names@.len() == 0
                &&& op.post_filters@.len() == 0
                &&& op.tests().len() == 0
                &&& op.scan_path == scan_path
                &&& op.tombstones.shards@.len() == 0
                &&& op.encoded_shapes@.len() == 0
                &&& op.encoded_residual@.len() == 0
            },
    {
        let names: Vec<String> = Vec::new();
        proof {
            let columns = table.declared() + system_columns();
            assert(text_views(names@) =~= Seq::empty());
            lemma_declared_found(table, table.entity_key as int);
            lemma_declared_found(table, table.timestamp as int);
        }
        let partition = EncodedPartition { shapes: Vec::new(), residual: Vec::new() };
        ScanOperator::with_scan_path(
            table,
            &names,
            Vec::new(),
            partition,
            CancellationToken::new(),
            scan_path,
        )
    }

    /// Adds a sample. Must happen before the scan is opened.
    pub fn with_sample_filter(&mut self, kind: SampleKind) -> (r: &mut Self)
        ensures
            *r == (ScanOperator { sample: Some(kind), ..*old(self) }),
            *final(self) == *final(r),
    {
        self.sample = Some(kind);
        self
    }

    /// Adds tests for the storage layer that do not come from a pushed predicate.
    /// Tests that were added before stay.
    pub fn with_extra_conjuncts(&mut self, extra: Vec<ScanConjunct>) -> (r: &mut Self)
        ensures
            *r == (ScanOperator { extra_conjuncts: r.extra_conjuncts, ..*old(self) }),
            r.extra_conjuncts@ == old(self).extra_conjuncts@ + extra@,
            *final(self) == *final(r),
    {
        let mut extra = extra;
        self.extra_conjuncts.append(&mut extra);
        self
    }

    /// Which way the scan reads.
    pub fn scan_path(&self) -> (r: ScanPath)
        ensures
            r == self.scan_path,
    {
        self.scan_path
    }

    /// The columns that the scan returns.
    pub fn output_schema(&self) -> (r: &OperatorSchema)
        ensures
            *r == self.output_schema,
    {
        &self.output_schema
    }

    /// Begins to open the scan. With a sample that keeps no entity there is
    /// nothing to open. Else the extra tests are added to those of the predicates,
    /// once.
    pub fn begin_open(&mut self) -> (r: OpenStart)
        ensures
            old(self).sample == Some(SampleKind::EmptySet) ==> r == OpenStart::Nothing
                && *final(self) == (ScanOperator { exhausted: true, ..*old(self) }),
            old(self).sample != Some(SampleKind::EmptySet) ==> {
                &&& *final(self) == (ScanOperator {
                    scan_predicate: final(self).scan_predicate,
                    extra_conjuncts: final(self).extra_conjuncts,
                    ..*old(self)
                })
                &&& final(self).extra().len() == 0
                &&& final(self).tests() == (if old(self).extra().len() == 0 {
                    old(self).tests()
                } else {
                    lowered_exprs(
                        old(self).post_filters@,
                        old(self).post_filters@.len() as int,
                    ) + old(self).extra()
                })
                &&& r == OpenStart::Segments(
                    zone_of(final(self).scan_predicate is Some, old(self).sample),
                )
            },
    {
        match self.sample {
            Some(SampleKind::EmptySet) => {
                self.exhausted = true;
                return OpenStart::Nothing;
            },
            _ => {},
        }
        let ghost extra = self.extra();
        assert(extra.len() == self.extra_conjuncts@.len());
        if self.extra_conjuncts.len() > 0 {
            let mut conjuncts: Vec<ScanConjunct> = lower_compiled_predicates(&self.post_filters);
            let ghost lowered = conjuncts@;
            let ghost added = self.extra_conjuncts@;
            conjuncts.append(&mut self.extra_conjuncts);
            assert(conjunct_views(conjuncts@) =~= conjunct_views(lowered) + conjunct_views(added));
            self.scan_predicate = Some(ScanPredicate::new(conjuncts));
        }
        let sampled: bool = match self.sample {
            Some(SampleKind::PassThrough) => false,
            Some(_) => true,
            None => false,
        };
        let zone: ZonePredicate = if self.scan_predicate.is_some() {
            if sampled {
                ZonePredicate::Both
            } else {
                ZonePredicate::Tests
            }
        } else if sampled {
            ZonePredicate::Sample
        } else {
            ZonePredicate::Nothing
        };
        OpenStart::Segments(zone)
    }

    /// Which segments have deletes, given the window and the shard of each.
    pub fn tombstoned(&self, segments: &Vec<(u64, u32)>) -> (r: Vec<bool>)
        ensures
            r@ == Seq::new(
                segments@.len(),
                |i: int| self.tombstones.covers(segments@[i].0, segments@[i].1),
            ),
    {
        let mut r: Vec<bool> = Vec::new();
        let mut i: usize = 0;
        while i < segments.len()
            invariant
                i <= segments@.len(),
                r@.len() == i,
                forall|j: int|
                    0 <= j < i ==> #[trigger] r@[j] == self.tombstones.covers(
                        segments@[j].0,
                        segments@[j].1,
                    ),
            decreases segments@.len() - i,
        {
            r.push(self.tombstones.has_deletes(segments[i].0, segments[i].1));
            i = i + 1;
        }
        assert(r@ =~= Seq::new(
            segments@.len(),
            |i: int| self.tombstones.covers(segments@[i].0, segments@[i].1),
        ));
        r
    }

    /// Finishes opening the scan, given which segments have deletes. Says how each
    /// segment is wrapped.
    pub fn finish_open(&mut self, tombstoned: &Vec<bool>) -> (r: Vec<SegmentWrap>)
        ensures
            r@ == Seq::new(
                tombstoned@.len(),
                |i: int| wrap_of(old(self).scan_path, tombstoned@[i]),
            ),
            *final(self) == (ScanOperator {
                holder: holder_of(old(self).scan_path, tombstoned@),
                exhausted: false,
                ..*old(self)
            }),
    {
        let encoded: bool = self.scan_path != ScanPath::Materialized;
        let mut wraps: Vec<SegmentWrap> = Vec::new();
        let mut i: usize = 0;
        while i < tombstoned.len()
            invariant
                i <= tombstoned@.len(),
                encoded == is_encoded(self.scan_path),
                wraps@.len() == i,
                forall|j: int|
                    0 <= j < i ==> #[trigger] wraps@[j] == wrap_of(self.scan_path, tombstoned@[j]),
            decreases tombstoned@.len() - i,
        {
            let wrap: SegmentWrap = if !tombstoned[i] {
                SegmentWrap::Plain
            } else if encoded {
                SegmentWrap::Encoded
            } else {
                SegmentWrap::Materialized
            };
            wraps.push(wrap);
            i = i + 1;
        }
        assert(wraps@ =~= Seq::new(
            tombstoned@.len(),
            |i: int| wrap_of(self.scan_path, tombstoned@[i]),
        ));
        self.holder = if !encoded {
            ScanHolder::Merge
        } else if tombstoned.len() == 1 && !tombstoned[0] {
            ScanHolder::EncodedScan
        } else {
            ScanHolder::EncodedMerge
        };
        self.exhausted = false;
        wraps
    }

    /// What to pull from first, where `cancelled` is what a read of the
    /// cancellation token returned. A scan that has come to its end stays there,
    /// even when it was cancelled.
    pub fn next_pull(&self, cancelled: bool) -> (r: Result<Option<ScanHolder>, BqliteError>)
        ensures
            if self.exhausted {
                r == Ok::<Option<ScanHolder>, BqliteError>(None)
            } else if cancelled {
                r == Err::<Option<ScanHolder>, BqliteError>(BqliteError::Cancelled)
            } else if self.holder == ScanHolder::Closed {
                r matches Err(e) && e is Execution && e.text()
                    == "ScanOperator::next_batch called before open()"@
            } else {
                r == Ok::<Option<ScanHolder>, BqliteError>(Some(self.holder))
            },
    {
        if self.exhausted {
            return Ok(None);
        }
        if cancelled {
            return Err(BqliteError::Cancelled);
        }
        if self.holder == ScanHolder::Closed {
            return Err(
                BqliteError::Execution(
                    "ScanOperator::next_batch called before open()".to_owned(),
                ),
            );
        }
        Ok(Some(self.holder))
    }

    /// What to do next, on the given event.
    pub open spec fn action_on(&self, event: ScanEvent) -> ScanAction {
        let pull = if self.holder == ScanHolder::EncodedMerge {
            ScanAction::PullUnlessCancelled
        } else {
            ScanAction::Pull
        };
        match event {
            ScanEvent::End => ScanAction::Finish,
            ScanEvent::RowGroup(n) => if n == 0 {
                pull
            } else {
                ScanAction::Select
            },
            ScanEvent::Selected(n) => if n == 0 {
                pull
            } else {
                ScanAction::Decode
            },
            ScanEvent::Decoded(n) => if n == 0 && self.holder == ScanHolder::EncodedMerge {
                pull
            } else if n == 0 && self.holder == ScanHolder::Merge {
                ScanAction::Emit
            } else {
                ScanAction::Filter(self.filters())
            },
            ScanEvent::Filtered(n) => if n == 0 {
                pull
            } else {
                ScanAction::Emit
            },
        }
    }

    /// What to do next, on the given event. A row group without rows and a batch in
    /// which no row is kept are passed over.
    pub fn on_event(&mut self, event: ScanEvent) -> (r: ScanAction)
        ensures
            r == old(self).action_on(event),
            event == ScanEvent::End ==> *final(self) == (ScanOperator {
                exhausted: true,
                ..*old(self)
            }),
            event != ScanEvent::End ==> *final(self) == *old(self),
    {
        let pull: ScanAction = if self.holder == ScanHolder::EncodedMerge {
            ScanAction::PullUnlessCancelled
        } else {
            ScanAction::Pull
        };
        match event {
            ScanEvent::End => {
                self.exhausted = true;
                ScanAction::Finish
            },
            ScanEvent::RowGroup(n) => if n == 0 {
                pull
            } else {
                ScanAction::Select
            },
            ScanEvent::Selected(n) => if n == 0 {
                pull
            } else {
                ScanAction::Decode
            },
            ScanEvent::Decoded(n) => {
                if n == 0 && self.holder == ScanHolder::EncodedMerge {
                    return pull;
                }
                if n == 0 && self.holder == ScanHolder::Merge {
                    return ScanAction::Emit;
                }
                let list: FilterList = if self.holder == ScanHolder::Merge
                    || self.encoded_shapes.len() == 0 {
                    FilterList::All
                } else if self.encoded_residual.len() == 0 {
                    FilterList::Nothing
                } else {
                    FilterList::Residual
                };
                ScanAction::Filter(list)
            },
            ScanEvent::Filtered(n) => if n == 0 {
                pull
            } else {
                ScanAction::Emit
            },
        }
    }

    /// Whether the rows of a batch are tested against the sample.
    pub fn samples(&self) -> (r: bool)
        ensures
            r == (self.sample is Some && self.sample != Some(SampleKind::PassThrough)),
    {
        match self.sample {
            Some(SampleKind::PassThrough) => false,
            Some(_) => true,
            None => false,
        }
    }

    /// The encoded predicate to apply after the first `done`, when `selected` rows
    /// are left. Once no row is left, the others are not applied.
    pub fn next_shape(&self, done: usize, selected: usize) -> (r: Option<&EncodedEqShape>)
        ensures
            match r {
                Some(shape) => done < self.encoded_shapes@.len() && selected > 0 && *shape
                    == self.encoded_shapes@[done as int],
                None => done >= self.encoded_shapes@.len() || selected == 0,
            },
    {
        if done < self.encoded_shapes.len() && selected > 0 {
            Some(&self.encoded_shapes[done])
        } else {
            None
        }
    }

    /// Closes the scan. May happen more than once, and without opening it.
    pub fn close(&mut self)
        ensures
            *final(self) == (ScanOperator {
                holder: ScanHolder::Closed,
                exhausted: true,
                ..*old(self)
            }),
    {
        self.holder = ScanHolder::Closed;
        self.exhausted = true;
    }
}

proof fn lemma_declared_found(table: &TableSchema, k: int)
    requires
        0 <= k < table.declared().len(),
    ensures
        column_position(table.declared() + system_columns(), table.declared()[k].name, 0) is Some,
{
    let columns = table.declared() + system_columns();
    lemma_column_position(columns, table.declared()[k].name, 0);
    assert(columns[k] == table.declared()[k]);
}

/// Whether the row groups of one segment are handed on to the encoded merge: a
/// row group without rows, or without a selected row, is skipped.
pub fn hands_on(rows: usize, selected: usize) -> (r: bool)
    ensures
        r == (rows > 0 && selected > 0),
{
    rows > 0 && selected > 0
}

/// The key under which the deletes of a segment are found. A window or a shard
/// that is out of range has none.
pub fn snapshot_key(window_id: u64, shard_id: u32) -> (r: Option<(u32, u16)>)
    ensures
        match r {
            Some((w, s)) => w == window_id && s == shard_id,
            None => window_id > u32::MAX || shard_id > u16::MAX,
        },
{
    if window_id > 0xffff_ffff || shard_id > 0xffff {
        None
    } else {
        Some((window_id as u32, shard_id as u16))
    }
}

/// An encoded scan never returns a batch without rows: what it returns has kept a row.
pub proof fn theorem_encoded_never_empty(op: ScanOperator, event: ScanEvent)
    requires
        op.holder == ScanHolder::EncodedScan || op.holder == ScanHolder::EncodedMerge,
        op.action_on(event) == ScanAction::Emit,
    ensures
        event matches ScanEvent::Filtered(n) && n > 0,
{
}

/// A segment with deletes is wrapped exactly once, in the way that fits the path,
/// and is never read past its wrapper: the path without a merge is taken only
/// where no segment has deletes.
pub proof fn theorem_wrapped_once(path: ScanPath, tombstoned: Seq<bool>, i: int)
    requires
        0 <= i < tombstoned.len(),
    ensures
        tombstoned[i] == (wrap_of(path, tombstoned[i]) != SegmentWrap::Plain),
        wrap_of(path, tombstoned[i]) == SegmentWrap::Encoded ==> holder_of(path, tombstoned)
            == ScanHolder::EncodedMerge,
        wrap_of(path, tombstoned[i]) == SegmentWrap::Materialized ==> holder_of(path, tombstoned)
            == ScanHolder::Merge,
{
}

} // verus!
