//! The table scan, driven over segments that are held in memory.

use std::collections::{HashMap, VecDeque};
use std::sync::atomic::{AtomicBool, AtomicUsize, Ordering};
use std::sync::Arc;

use arrow::array::{
    Array, ArrayRef, BooleanArray, Int64Array, StringViewArray, TimestampNanosecondArray,
};
use arrow::compute::{interleave_record_batch};
use arrow::datatypes::{DataType, Field, Schema as ArrowSchema, TimeUnit};
use arrow::record_batch::RecordBatch;

use bqlite_operators::columnar::{to_schema_spec, Batch};
use bqlite_operators::error::BqliteError;
use bqlite_operators::expr::{CompareOp, CompiledExpr, CompiledNode};
use bqlite_operators::materialize::{
    materialize_selected, materialize_stitched, EncodedBatch, RowRef, StitchedBatch, StitchedRows,
};
use bqlite_operators::operator::CancellationToken;
use bqlite_operators::scan::filter::apply_masks;
use bqlite_operators::scan::operator::{
    build_output_schema, hands_on, EncodedEqShape, EncodedPartition, FilterList, OpenStart,
    SampleKind, ScanAction, ScanEvent, ScanHolder, ScanOperator, SegmentWrap, TombstoneSnapshot,
    ZonePredicate,
};
use bqlite_operators::scan::path::ScanPath;
use bqlite_operators::scan::predicate;
use bqlite_operators::scan::predicate::{RangeOp, ScanConjunct, ScanPredicate};
use bqlite_operators::schema::{
    BqlType, ColumnDef, ColumnProjection, OperatorSchema, TableSchema,
};
use bqlite_operators::selection::{RowSelection, SelectionVector};
use bqlite_operators::value::PropertyValue;

fn minimal_schema() -> TableSchema {
    TableSchema::new(
        "events",
        vec![
            ColumnDef::required("entity_id", BqlType::String),
            ColumnDef::required("ts", BqlType::Timestamp),
            ColumnDef::required("event_type", BqlType::String),
        ],
        "entity_id",
        "ts",
        "event_type",
    )
    .unwrap()
}

fn minimal_columns() -> OperatorSchema {
    OperatorSchema::new(minimal_schema().columns).unwrap()
}

fn minimal_arrow_schema() -> Arc<ArrowSchema> {
    Arc::new(ArrowSchema::new(vec![
        Field::new("entity_id", DataType::Utf8View, false),
        Field::new("ts", DataType::Timestamp(TimeUnit::Nanosecond, Some("UTC".into())), false),
        Field::new("event_type", DataType::Utf8View, false),
        Field::new("__seq_id", DataType::Int64, false),
        Field::new("__batch_id", DataType::Int64, false),
    ]))
}

fn make_batch(ids: &[&str], tss: &[i64], evts: &[&str]) -> RecordBatch {
    make_batch_at(ids, tss, evts, 0, 0)
}

fn make_batch_at(
    ids: &[&str],
    tss: &[i64],
    evts: &[&str],
    seq_id_first: u64,
    batch_id: u64,
) -> RecordBatch {
    let n = ids.len();
    let ids_arr: ArrayRef = Arc::new(StringViewArray::from(ids.to_vec()));
    let tss_arr: ArrayRef = Arc::new(
        TimestampNanosecondArray::from(tss.iter().copied().map(Some).collect::<Vec<_>>())
            .with_timezone("UTC"),
    );
    let evts_arr: ArrayRef = Arc::new(StringViewArray::from(evts.to_vec()));
    let seq_arr: ArrayRef = Arc::new(Int64Array::from(
        (0..n).map(|i| (seq_id_first + i as u64) as i64).collect::<Vec<_>>(),
    ));
    let bid_arr: ArrayRef = Arc::new(Int64Array::from(vec![batch_id as i64; n]));
    RecordBatch::try_new(minimal_arrow_schema(), vec![ids_arr, tss_arr, evts_arr, seq_arr, bid_arr])
        .unwrap()
}

fn text_column(batch: &RecordBatch, name: &str) -> Vec<String> {
    let column = batch.column_by_name(name).unwrap();
    let column = column.as_any().downcast_ref::<StringViewArray>().unwrap();
    column.iter().map(|v| v.unwrap().to_string()).collect()
}

fn int_column(batch: &RecordBatch, name: &str) -> Vec<i64> {
    let column = batch.column_by_name(name).unwrap();
    match column.as_any().downcast_ref::<Int64Array>() {
        Some(a) => a.values().to_vec(),
        None => {
            let a = column.as_any().downcast_ref::<TimestampNanosecondArray>().unwrap();
            a.values().to_vec()
        }
    }
}

#[derive(Clone)]
struct SegmentHandle {
    shard_id: u32,
    window_id: u64,
    seq_id_first: u64,
    batch_id: u64,
}

fn make_handle(segment_id: u64, row_count: u64) -> SegmentHandle {
    handle_for(segment_id, 0, 0, row_count)
}

fn handle_for(_segment_id: u64, window: u64, shard: u32, _rows: u64) -> SegmentHandle {
    SegmentHandle { shard_id: shard, window_id: window, seq_id_first: 0, batch_id: 0 }
}

/// The least and the greatest value of a column in a row group.
#[derive(Clone)]
struct ZoneMap {
    min: String,
    max: String,
}

type Zones = HashMap<String, ZoneMap>;

fn zones_for(entity_min: &str, entity_max: &str, _ts_min: i64, _ts_max: i64) -> Zones {
    let zone = ZoneMap { min: entity_min.to_string(), max: entity_max.to_string() };
    HashMap::from([("entity_id".to_string(), zone)])
}

fn zones_with_event(entity: &str, ts: i64, event: &str) -> Zones {
    let mut map = zones_for(entity, entity, ts, ts);
    let zone = ZoneMap { min: event.to_string(), max: event.to_string() };
    map.insert("event_type".to_string(), zone);
    map
}

fn entity_singleton_zone(entity: &str) -> Zones {
    zones_for(entity, entity, 0, 0)
}

type VecSegment = (SegmentHandle, Vec<RecordBatch>, Vec<Zones>);

/// Segments held in memory. A row group whose zones rule out every row is skipped.
struct VecReader {
    schema: TableSchema,
    segments: Vec<VecSegment>,
    list_fails: bool,
    open_fails: bool,
    open_calls: AtomicUsize,
    last_predicate: AtomicBool,
    skipped: AtomicUsize,
}

impl VecReader {
    fn with_segments(schema: TableSchema, segments: Vec<VecSegment>) -> Self {
        Self {
            schema,
            segments,
            list_fails: false,
            open_fails: false,
            open_calls: AtomicUsize::new(0),
            last_predicate: AtomicBool::new(false),
            skipped: AtomicUsize::new(0),
        }
    }

    fn empty(schema: TableSchema) -> Self {
        Self::with_segments(schema, Vec::new())
    }

    fn schema(&self) -> &TableSchema {
        &self.schema
    }

    fn open_calls(&self) -> usize {
        self.open_calls.load(Ordering::SeqCst)
    }

    fn had_predicate(&self) -> bool {
        self.last_predicate.load(Ordering::SeqCst)
    }

    fn segments(&self) -> Result<usize, BqliteError> {
        if self.list_fails {
            return Err(BqliteError::Io("segment list truncated".into()));
        }
        Ok(self.segments.len())
    }

    fn open_segment(
        &self,
        i: usize,
        zone: ZonePredicate,
        tests: &Option<ScanPredicate>,
        sample: &Option<SampleFilter>,
    ) -> Result<Vec<RecordBatch>, BqliteError> {
        self.open_calls.fetch_add(1, Ordering::SeqCst);
        self.last_predicate.store(zone != ZonePredicate::Nothing, Ordering::SeqCst);
        if self.open_fails {
            return Err(BqliteError::Execution("segment not found".into()));
        }
        let (_, batches, zones) = &self.segments[i];
        let mut out = Vec::new();
        for (k, batch) in batches.iter().enumerate() {
            let zones = zones.get(k).cloned().unwrap_or_default();
            let mut kept = true;
            if matches!(zone, ZonePredicate::Tests | ZonePredicate::Both) {
                kept = kept && tests.as_ref().unwrap().conjuncts.iter().all(|c| may_hold(c, &zones));
            }
            if matches!(zone, ZonePredicate::Sample | ZonePredicate::Both) {
                if let Some(z) = zones.get("entity_id") {
                    let rejects = !sample.as_ref().unwrap().accepts_str(z.min.as_bytes());
                    kept = kept && !(z.min == z.max && rejects);
                }
            }
            if kept {
                out.push(batch.clone());
            } else {
                self.skipped.fetch_add(1, Ordering::SeqCst);
            }
        }
        Ok(out)
    }
}

fn may_hold(test: &ScanConjunct, zones: &Zones) -> bool {
    match test {
        ScanConjunct::Equal { column, value: PropertyValue::String(s) } => match zones.get(column) {
            Some(z) => z.min <= *s && *s <= z.max,
            None => true,
        },
        _ => true,
    }
}

/// A sample by the entity: keeps about this fraction of the entities.
#[derive(Clone)]
struct SampleFilter {
    fraction: f64,
    seed: u64,
}

impl SampleFilter {
    fn new(fraction: f64, seed: u64, _column: &str, _t: BqlType) -> Result<Self, BqliteError> {
        Ok(SampleFilter { fraction, seed })
    }

    fn kind(&self) -> SampleKind {
        if self.fraction >= 1.0 {
            SampleKind::PassThrough
        } else if self.fraction <= 0.0 {
            SampleKind::EmptySet
        } else {
            SampleKind::Partial
        }
    }

    fn accepts_str(&self, id: &[u8]) -> bool {
        let mut h: u64 = 0xcbf2_9ce4_8422_2325 ^ self.seed;
        for b in id {
            h = (h ^ *b as u64).wrapping_mul(0x0100_0000_01b3);
        }
        ((h % 1000) as f64) < self.fraction * 1000.0
    }
}

struct TimeRangeDelete {
    min_ts: Option<i64>,
    min_inclusive: bool,
    max_ts: Option<i64>,
    max_inclusive: bool,
}

enum ScalarValue {
    String(String),
}

/// The deletes of one shard.
#[derive(Default)]
struct TombstoneFile {
    entities: Vec<String>,
    rows: Vec<u64>,
    batches: Vec<u64>,
    times: Vec<TimeRangeDelete>,
}

impl TombstoneFile {
    fn for_entities<const N: usize>(ids: [ScalarValue; N]) -> Self {
        let entities = ids.into_iter().map(|ScalarValue::String(s)| s).collect();
        TombstoneFile { entities, ..Default::default() }
    }

    fn for_rows<const N: usize>(rows: [u64; N]) -> Self {
        TombstoneFile { rows: rows.to_vec(), ..Default::default() }
    }

    fn for_batches<const N: usize>(batches: [u64; N]) -> Self {
        TombstoneFile { batches: batches.to_vec(), ..Default::default() }
    }

    fn for_time_range(range: TimeRangeDelete) -> Self {
        TombstoneFile { times: vec![range], ..Default::default() }
    }

    fn merge(&mut self, other: TombstoneFile) {
        self.entities.extend(other.entities);
        self.rows.extend(other.rows);
        self.batches.extend(other.batches);
        self.times.extend(other.times);
    }

    fn is_empty(&self) -> bool {
        self.entities.is_empty()
            && self.rows.is_empty()
            && self.batches.is_empty()
            && self.times.is_empty()
    }

    fn drops(&self, entity: &str, ts: i64, row: u64, batch: u64) -> bool {
        let in_range = |t: &TimeRangeDelete| {
            let above = t.min_ts.map_or(true, |m| ts > m || (ts == m && t.min_inclusive));
            let below = t.max_ts.map_or(true, |m| ts < m || (ts == m && t.max_inclusive));
            above && below
        };
        self.entities.iter().any(|e| e == entity)
            || self.rows.contains(&row)
            || self.batches.contains(&batch)
            || self.times.iter().any(in_range)
    }
}

/// The deletes of a table, by window and shard.
struct Snapshot {
    files: Vec<((u32, u16), TombstoneFile)>,
}

impl Snapshot {
    fn empty() -> Self {
        Snapshot { files: Vec::new() }
    }

    fn from_map<const N: usize>(files: [((u32, u16), TombstoneFile); N]) -> Self {
        Snapshot { files: files.into_iter().filter(|(_, f)| !f.is_empty()).collect() }
    }

    fn is_empty(&self) -> bool {
        self.files.is_empty()
    }

    fn covered(&self) -> TombstoneSnapshot {
        TombstoneSnapshot { shards: self.files.iter().map(|(k, _)| *k).collect() }
    }

    fn file(&self, handle: &SegmentHandle) -> &TombstoneFile {
        let key = (handle.window_id as u32, handle.shard_id as u16);
        &self.files.iter().find(|(k, _)| *k == key).unwrap().1
    }
}

/// A predicate before it is compiled.
#[derive(Clone)]
enum Expr {
    Column(String),
    Str(String),
    Int(i64),
    Compare { op: CompareOp, left: Box<Expr>, right: Box<Expr> },
    IsNull { expr: Box<Expr>, negated: bool },
    In { lhs: Vec<Expr>, rhs: InRhs, negated: bool },
}

#[derive(Clone)]
enum InRhs {
    List(Vec<Expr>),
}

fn col(name: &str) -> Expr {
    Expr::Column(name.to_string())
}

fn string_lit(value: &str) -> Expr {
    Expr::Str(value.to_string())
}

fn int_lit(value: i64) -> Expr {
    Expr::Int(value)
}

fn compare(op: CompareOp, left: Expr, right: Expr) -> Expr {
    Expr::Compare { op, left: Box::new(left), right: Box::new(right) }
}

fn literal(e: &Expr) -> PropertyValue {
    match e {
        Expr::Str(s) => PropertyValue::String(s.clone()),
        Expr::Int(v) => PropertyValue::Int(*v),
        _ => panic!("not a literal"),
    }
}

/// A predicate whose columns are known.
#[derive(Clone)]
struct Pred {
    expr: Expr,
    columns: Vec<String>,
}

fn compile_predicate(expr: Expr, schema: &OperatorSchema) -> Pred {
    Pred { expr, columns: schema.columns().iter().map(|c| c.name.clone()).collect() }
}

impl Pred {
    fn node(&self, e: &Expr) -> CompiledExpr {
        let node = match e {
            Expr::Column(name) => CompiledNode::Column {
                name: name.clone(),
                index: self.columns.iter().position(|c| c == name).unwrap(),
            },
            Expr::Str(_) | Expr::Int(_) => CompiledNode::Literal(literal(e)),
            Expr::Compare { op, left, right } => CompiledNode::Compare {
                op: *op,
                left: Box::new(self.node(left)),
                right: Box::new(self.node(right)),
            },
            Expr::IsNull { expr, negated } => {
                CompiledNode::IsNull { input: Box::new(self.node(expr)), negated: *negated }
            }
            Expr::In { lhs, rhs: InRhs::List(values), negated } => CompiledNode::InLiteralSet {
                input: Box::new(self.node(&lhs[0])),
                values: values.iter().map(literal).collect(),
                negated: *negated,
            },
        };
        CompiledExpr { node }
    }

    fn compiled(&self) -> CompiledExpr {
        self.node(&self.expr)
    }

    /// The column and the constant of `column = constant`.
    fn shape(&self) -> Option<EncodedEqShape> {
        match &self.expr {
            Expr::Compare { op: CompareOp::Equal, left, right } => match (&**left, &**right) {
                (Expr::Column(c), Expr::Str(s)) => Some(EncodedEqShape {
                    col_index: self.columns.iter().position(|n| n == c).unwrap(),
                    value: PropertyValue::String(s.clone()),
                }),
                _ => None,
            },
            _ => None,
        }
    }
}

fn build_scan_predicate(preds: &[Pred]) -> Option<ScanPredicate> {
    predicate::build_scan_predicate(&preds.iter().map(|p| p.compiled()).collect())
}

fn partition(preds: &[Pred]) -> EncodedPartition {
    let mut out = EncodedPartition { shapes: Vec::new(), residual: Vec::new() };
    for p in preds {
        match p.shape() {
            Some(shape) => out.shapes.push(shape),
            None => out.residual.push(p.compiled()),
        }
    }
    out
}

/// What a predicate says of the rows of a batch.
fn mask(e: &CompiledExpr, batch: &RecordBatch) -> BooleanArray {
    let rows = 0..batch.num_rows();
    match &e.node {
        CompiledNode::Compare { op, left, right } => match (&left.node, &right.node) {
            (CompiledNode::Column { name, .. }, CompiledNode::Literal(PropertyValue::String(s))) => {
                let values = text_column(batch, name);
                rows.map(|i| Some(holds(*op, values[i].as_str(), s.as_str()))).collect()
            }
            (CompiledNode::Column { name, .. }, CompiledNode::Literal(PropertyValue::Int(v))) => {
                let values = int_column(batch, name);
                rows.map(|i| Some(holds(*op, values[i], *v))).collect()
            }
            (CompiledNode::Column { name, .. }, CompiledNode::Column { name: other, .. }) => {
                let (a, b) = (text_column(batch, name), text_column(batch, other));
                rows.map(|i| Some(holds(*op, a[i].as_str(), b[i].as_str()))).collect()
            }
            _ => panic!("unexpected comparison"),
        },
        _ => panic!("unexpected predicate"),
    }
}

fn holds<T: PartialOrd>(op: CompareOp, a: T, b: T) -> bool {
    match op {
        CompareOp::Equal => a == b,
        CompareOp::NotEqual => a != b,
        CompareOp::Less => a < b,
        CompareOp::LessOrEqual => a <= b,
        CompareOp::Greater => a > b,
        CompareOp::GreaterOrEqual => a >= b,
    }
}

fn encode(batch: &RecordBatch) -> EncodedBatch {
    EncodedBatch {
        row_count: batch.num_rows() as u32,
        columns: batch.columns().iter().map(|c| c.to_data()).collect(),
    }
}

/// A scan together with the segments that it reads.
struct Scan {
    op: ScanOperator,
    reader: Arc<VecReader>,
    snapshot: Snapshot,
    sample: Option<SampleFilter>,
    cancel: CancellationToken,
    groups: VecDeque<RecordBatch>,
    merged: Option<(Vec<RecordBatch>, Vec<(usize, usize)>)>,
    wraps: Vec<SegmentWrap>,
}

impl Scan {
    fn with_tombstones_and_scan_path(
        reader: Arc<VecReader>,
        projected: &[String],
        preds: Vec<Pred>,
        cancel: CancellationToken,
        path: ScanPath,
        snapshot: Snapshot,
    ) -> Result<Self, BqliteError> {
        let op = ScanOperator::with_tombstones_and_scan_path(
            reader.schema(),
            &projected.to_vec(),
            preds.iter().map(|p| p.compiled()).collect(),
            partition(&preds),
            cancel.clone(),
            path,
            snapshot.covered(),
        )?;
        Ok(Scan {
            op,
            reader,
            snapshot,
            sample: None,
            cancel,
            groups: VecDeque::new(),
            merged: None,
            wraps: Vec::new(),
        })
    }

    fn with_tombstones(
        reader: Arc<VecReader>,
        projected: &[String],
        preds: Vec<Pred>,
        cancel: CancellationToken,
        snapshot: Snapshot,
    ) -> Result<Self, BqliteError> {
        let path = ScanPath::default();
        Self::with_tombstones_and_scan_path(reader, projected, preds, cancel, path, snapshot)
    }

    fn with_scan_path(
        reader: Arc<VecReader>,
        projected: &[String],
        preds: Vec<Pred>,
        cancel: CancellationToken,
        path: ScanPath,
    ) -> Result<Self, BqliteError> {
        let none = Snapshot::empty();
        Self::with_tombstones_and_scan_path(reader, projected, preds, cancel, path, none)
    }

    fn new(
        reader: Arc<VecReader>,
        projected: &[String],
        preds: Vec<Pred>,
        cancel: CancellationToken,
    ) -> Result<Self, BqliteError> {
        Self::with_scan_path(reader, projected, preds, cancel, ScanPath::default())
    }

    fn full_scan(reader: Arc<VecReader>) -> Result<Self, BqliteError> {
        let mut scan = Self::new(reader, &[], Vec::new(), CancellationToken::new())?;
        scan.op = ScanOperator::full_scan(scan.reader.schema(), ScanPath::default())?;
        Ok(scan)
    }

    fn with_sample_filter(&mut self, filter: SampleFilter) {
        self.op.with_sample_filter(filter.kind());
        self.sample = Some(filter);
    }

    fn output_schema(&self) -> &OperatorSchema {
        self.op.output_schema()
    }

    fn open(&mut self) -> Result<(), BqliteError> {
        let zone = match self.op.begin_open() {
            OpenStart::Nothing => return Ok(()),
            OpenStart::Segments(zone) => zone,
        };
        let count = self.reader.segments()?;
        let mut opened = Vec::new();
        for i in 0..count {
            opened.push(self.reader.open_segment(i, zone, &self.op.scan_predicate, &self.sample)?);
        }
        let handles = self.reader.segments.iter().map(|(h, _, _)| (h.window_id, h.shard_id));
        let tombstoned = self.op.tombstoned(&handles.collect());
        self.wraps = self.op.finish_open(&tombstoned);
        if self.op.holder == ScanHolder::EncodedScan {
            self.groups = opened.remove(0).into();
            return Ok(());
        }
        let mut sources = Vec::new();
        let mut rows = Vec::new();
        for (i, groups) in opened.into_iter().enumerate() {
            let mut offset = 0;
            for group in groups {
                let mut live = self.live_rows(i, &group, offset);
                offset += group.num_rows();
                if self.op.holder == ScanHolder::EncodedMerge {
                    live = self.kernel_rows(&group, live);
                    if !hands_on(group.num_rows(), live.len()) {
                        continue;
                    }
                }
                let (ids, tss) = (text_column(&group, "entity_id"), int_column(&group, "ts"));
                for r in live {
                    rows.push((ids[r].clone(), tss[r], sources.len(), r));
                }
                sources.push(group);
            }
        }
        rows.sort();
        self.merged = Some((sources, rows.into_iter().map(|(_, _, s, r)| (s, r)).collect()));
        Ok(())
    }

    fn live_rows(&self, i: usize, group: &RecordBatch, offset: usize) -> Vec<usize> {
        let rows = 0..group.num_rows();
        if self.wraps[i] == SegmentWrap::Plain {
            return rows.collect();
        }
        let handle = &self.reader.segments[i].0;
        let file = self.snapshot.file(handle);
        let (ids, tss) = (text_column(group, "entity_id"), int_column(group, "ts"));
        rows.filter(|r| {
            let row = handle.seq_id_first + (offset + r) as u64;
            !file.drops(&ids[*r], tss[*r], row, handle.batch_id)
        })
        .collect()
    }

    fn kernel_rows(&self, group: &RecordBatch, rows: Vec<usize>) -> Vec<usize> {
        let mut rows = rows;
        let mut done = 0;
        while let Some(shape) = self.op.next_shape(done, rows.len()) {
            let values = text_column(group, group.schema().field(shape.col_index).name());
            match &shape.value {
                PropertyValue::String(s) => rows.retain(|r| values[*r] == *s),
                _ => panic!("unexpected constant"),
            }
            done += 1;
        }
        rows
    }

    fn filter(&self, batch: Batch, list: FilterList) -> Result<Batch, BqliteError> {
        let preds: &[CompiledExpr] = match list {
            FilterList::All => &self.op.post_filters,
            FilterList::Residual => &self.op.encoded_residual,
            FilterList::Nothing => &[],
        };
        let mut masks: Vec<_> = preds.iter().map(|p| mask(p, &batch.inner).to_data()).collect();
        if self.op.samples() {
            let sample = self.sample.as_ref().unwrap();
            let ids = text_column(&batch.inner, "entity_id");
            let kept: BooleanArray =
                ids.iter().map(|id| Some(sample.accepts_str(id.as_bytes()))).collect();
            masks.push(kept.to_data());
        }
        apply_masks(batch, &masks)
    }

    fn next_batch(&mut self) -> Result<Option<RecordBatch>, BqliteError> {
        let holder = match self.op.next_pull(self.cancel.is_cancelled())? {
            None => return Ok(None),
            Some(holder) => holder,
        };
        let spec = to_schema_spec(self.op.output_schema());
        let types = self.op.types.clone();
        let mut group: Option<RecordBatch> = None;
        let mut selected: Vec<usize> = Vec::new();
        let mut batch: Option<Batch> = None;
        let mut event = None;
        loop {
            let e = match event {
                Some(e) => e,
                None if holder == ScanHolder::EncodedScan => {
                    group = self.groups.pop_front();
                    match &group {
                        Some(g) => ScanEvent::RowGroup(g.num_rows()),
                        None => ScanEvent::End,
                    }
                }
                None => match self.merged.take() {
                    Some((sources, rows)) if !rows.is_empty() => {
                        let merged = if holder == ScanHolder::Merge {
                            let refs: Vec<&RecordBatch> = sources.iter().collect();
                            Batch { inner: interleave_record_batch(&refs, &rows).unwrap() }
                        } else {
                            let to_ref = |(s, r): &(usize, usize)| RowRef {
                                source: *s as u32,
                                row: *r as u32,
                            };
                            let stitched = StitchedBatch {
                                sources: sources.iter().map(encode).collect(),
                                rows: StitchedRows::Indices(rows.iter().map(to_ref).collect()),
                            };
                            materialize_stitched(&stitched, &types, &spec)?.batch
                        };
                        let rows = merged.inner.num_rows();
                        batch = Some(merged);
                        ScanEvent::Decoded(rows)
                    }
                    _ => ScanEvent::End,
                },
            };
            event = match self.op.on_event(e) {
                ScanAction::Finish => return Ok(None),
                ScanAction::Emit => return Ok(Some(batch.unwrap().inner)),
                ScanAction::Select => {
                    let g = group.as_ref().unwrap();
                    selected = self.kernel_rows(g, (0..g.num_rows()).collect());
                    Some(ScanEvent::Selected(selected.len()))
                }
                ScanAction::Decode => {
                    let rows = selected.iter().map(|r| *r as u32).collect();
                    let selection = RowSelection::from_indices(SelectionVector::from_sorted(rows));
                    let g = encode(group.as_ref().unwrap());
                    let b = materialize_selected(&g, Some(&selection), &types, &spec)?.batch;
                    let n = b.inner.num_rows();
                    batch = Some(b);
                    Some(ScanEvent::Decoded(n))
                }
                ScanAction::Filter(list) => {
                    let b = self.filter(batch.take().unwrap(), list)?;
                    let n = b.inner.num_rows();
                    batch = Some(b);
                    Some(ScanEvent::Filtered(n))
                }
                ScanAction::Pull => None,
                ScanAction::PullUnlessCancelled => {
                    CancellationToken::guard(self.cancel.is_cancelled())?;
                    None
                }
            };
        }
    }

    fn close(&mut self) -> Result<(), BqliteError> {
        self.op.close();
        Ok(())
    }
}

fn drain_entity_ids(op: &mut Scan) -> Vec<String> {
    let mut out = Vec::new();
    while let Some(batch) = op.next_batch().unwrap() {
        out.extend(text_column(&batch, "entity_id"));
    }
    out
}

fn drain_pairs(op: &mut Scan) -> Vec<(String, String)> {
    let mut out = Vec::new();
    while let Some(batch) = op.next_batch().unwrap() {
        let ids = text_column(&batch, "entity_id");
        out.extend(ids.into_iter().zip(text_column(&batch, "event_type")));
    }
    out
}

fn drain_with_path(reader: Arc<VecReader>, snap: Snapshot, path: ScanPath) -> Vec<(String, i64)> {
    let mut op = Scan::with_tombstones_and_scan_path(
        reader,
        &[],
        Vec::new(),
        CancellationToken::new(),
        path,
        snap,
    )
    .unwrap();
    op.open().unwrap();
    match path {
        ScanPath::Materialized => assert_eq!(op.op.holder, ScanHolder::Merge),
        _ => assert!(matches!(op.op.holder, ScanHolder::EncodedScan | ScanHolder::EncodedMerge)),
    }
    let mut rows = Vec::new();
    while let Some(b) = op.next_batch().unwrap() {
        rows.extend(text_column(&b, "entity_id").into_iter().zip(int_column(&b, "__seq_id")));
    }
    rows
}

fn sample_reader() -> Arc<VecReader> {
    let s1 = make_batch(&["u0", "u1"], &[100, 200], &["a", "b"]);
    let s2 = make_batch(&["u2", "u3"], &[300, 400], &["c", "d"]);
    Arc::new(VecReader::with_segments(
        minimal_schema(),
        vec![
            (make_handle(1, 2), vec![s1], vec![HashMap::new()]),
            (make_handle(2, 2), vec![s2], vec![HashMap::new()]),
        ],
    ))
}

#[test]
fn output_schema_reflects_declared_and_system_columns_for_full_scan() {
    let reader: Arc<VecReader> = Arc::new(VecReader::empty(minimal_schema()));
    let scan = Scan::full_scan(reader).expect("ok");
    let names: Vec<&str> = scan
        .output_schema()
        .columns()
        .iter()
        .map(|c| c.name.as_str())
        .collect();
    assert_eq!(
        names,
        vec!["entity_id", "ts", "event_type", "__seq_id", "__batch_id"]
    );
}

#[test]
fn explicit_projection_narrows_output_schema_and_preserves_order() {
    let reader: Arc<VecReader> = Arc::new(VecReader::empty(minimal_schema()));
    let projection = vec![
        "ts".to_string(),
        "entity_id".to_string(),
        "event_type".to_string(),
    ];
    let scan = Scan::new(reader, &projection, Vec::new(), CancellationToken::new())
        .expect("projection resolves");
    let names: Vec<&str> = scan
        .output_schema()
        .columns()
        .iter()
        .map(|c| c.name.as_str())
        .collect();
    assert_eq!(names, vec!["entity_id", "ts", "event_type"]);
}

#[test]
fn explicit_projection_rejects_unknown_column() {
    let reader: Arc<VecReader> = Arc::new(VecReader::empty(minimal_schema()));
    let projection = vec!["entity_id".to_string(), "nope".to_string()];
    let err = Scan::new(reader, &projection, Vec::new(), CancellationToken::new())
        .err().expect("unknown column rejected");
    match err {
        BqliteError::Schema(msg) => assert!(msg.contains("nope"), "{msg}"),
        other => panic!("expected Schema error, got {other:?}"),
    }
}

#[test]
fn explicit_projection_without_entity_key_is_rejected() {
    let reader: Arc<VecReader> = Arc::new(VecReader::empty(minimal_schema()));
    let projection = vec!["ts".to_string(), "event_type".to_string()];
    let err = Scan::new(reader, &projection, Vec::new(), CancellationToken::new())
        .err().expect("entity key required");
    match err {
        BqliteError::Schema(msg) => {
            assert!(msg.contains("entity-key"), "{msg}");
            assert!(msg.contains("entity_id"), "{msg}");
        }
        other => panic!("expected Schema error, got {other:?}"),
    }
}

#[test]
fn explicit_projection_without_timestamp_is_rejected() {
    let reader: Arc<VecReader> = Arc::new(VecReader::empty(minimal_schema()));
    let projection = vec!["entity_id".to_string(), "event_type".to_string()];
    let err = Scan::new(reader, &projection, Vec::new(), CancellationToken::new())
        .err().expect("timestamp required");
    match err {
        BqliteError::Schema(msg) => {
            assert!(msg.contains("timestamp"), "{msg}");
            assert!(msg.contains("ts"), "{msg}");
        }
        other => panic!("expected Schema error, got {other:?}"),
    }
}

#[test]
fn empty_reader_drains_to_none() {
    let reader: Arc<VecReader> = Arc::new(VecReader::empty(minimal_schema()));
    let mut op = Scan::full_scan(reader).unwrap();
    op.open().unwrap();
    assert!(op.next_batch().unwrap().is_none());
    assert!(op.next_batch().unwrap().is_none());
    op.close().unwrap();
}

#[test]
fn single_segment_drains_every_row() {
    let batch = make_batch(&["u1", "u1", "u2"], &[100, 200, 300], &["a", "b", "c"]);
    let reader: Arc<VecReader> = Arc::new(VecReader::with_segments(
        minimal_schema(),
        vec![(make_handle(1, 3), vec![batch], vec![HashMap::new()])],
    ));
    let mut op = Scan::full_scan(reader).unwrap();
    op.open().unwrap();
    assert_eq!(drain_entity_ids(&mut op), vec!["u1", "u1", "u2"]);
    op.close().unwrap();
}

#[test]
fn multi_segment_merge_produces_globally_sorted_stream() {
    let s1 = make_batch(&["u1", "u3"], &[100, 300], &["a", "c"]);
    let s2 = make_batch(&["u2", "u2", "u4"], &[150, 200, 400], &["b", "b", "d"]);
    let reader: Arc<VecReader> = Arc::new(VecReader::with_segments(
        minimal_schema(),
        vec![
            (make_handle(1, 2), vec![s1], vec![HashMap::new()]),
            (make_handle(2, 3), vec![s2], vec![HashMap::new()]),
        ],
    ));
    let mut op = Scan::full_scan(reader).unwrap();
    op.open().unwrap();
    assert_eq!(
        drain_entity_ids(&mut op),
        vec!["u1", "u2", "u2", "u3", "u4"],
    );
}

#[test]
fn multi_segment_multi_row_group_merges_batches() {
    let s1_a = make_batch(&["u1"], &[100], &["a"]);
    let s1_b = make_batch(&["u3"], &[300], &["c"]);
    let s2 = make_batch(&["u2"], &[200], &["b"]);
    let reader: Arc<VecReader> = Arc::new(VecReader::with_segments(
        minimal_schema(),
        vec![
            (
                make_handle(1, 2),
                vec![s1_a, s1_b],
                vec![HashMap::new(), HashMap::new()],
            ),
            (make_handle(2, 1), vec![s2], vec![HashMap::new()]),
        ],
    ));
    let mut op = Scan::full_scan(reader).unwrap();
    op.open().unwrap();
    assert_eq!(drain_entity_ids(&mut op), vec!["u1", "u2", "u3"]);
}

#[test]
fn scan_predicate_is_built_and_prunes_disjoint_row_groups() {
    let output_schema = minimal_columns();
    let pred = compile_predicate(
        compare(CompareOp::Equal, col("event_type"), string_lit("keep")),
        &output_schema,
    );

    let keep_batch = make_batch(&["u1", "u2"], &[10, 20], &["keep", "keep"]);
    let skip_batch = make_batch(&["u3"], &[30], &["drop"]);
    let reader: Arc<VecReader> = Arc::new(VecReader::with_segments(
        minimal_schema(),
        vec![(
            make_handle(1, 3),
            vec![keep_batch, skip_batch],
            vec![
                zones_with_event("u1", 20, "keep"),
                zones_with_event("u3", 30, "drop"),
            ],
        )],
    ));

    let mut op = Scan::new(reader, &[], vec![pred], CancellationToken::new()).unwrap();
    op.open().unwrap();
    assert_eq!(drain_entity_ids(&mut op), vec!["u1", "u2"]);
}

#[test]
fn non_pushable_predicate_falls_back_to_post_filter() {
    let output_schema = minimal_columns();
    let pred = compile_predicate(
        compare(CompareOp::Greater, col("ts"), int_lit(150)),
        &output_schema,
    );

    let batch = make_batch(&["u1", "u2"], &[100, 200], &["a", "b"]);
    let reader: Arc<VecReader> = Arc::new(VecReader::with_segments(
        minimal_schema(),
        vec![(make_handle(1, 2), vec![batch], vec![HashMap::new()])],
    ));

    let mut op = Scan::new(reader, &[], vec![pred], CancellationToken::new()).unwrap();
    op.open().unwrap();
    assert_eq!(drain_entity_ids(&mut op), vec!["u2"]);
}

#[test]
fn every_row_rejected_forces_next_batch_loop() {
    let output_schema = minimal_columns();
    let pred = compile_predicate(
        compare(CompareOp::Equal, col("event_type"), string_lit("match")),
        &output_schema,
    );

    let s1 = make_batch(&["u1"], &[100], &["miss"]);
    let s2 = make_batch(&["u2"], &[200], &["match"]);
    let reader: Arc<VecReader> = Arc::new(VecReader::with_segments(
        minimal_schema(),
        vec![
            (make_handle(1, 1), vec![s1], vec![HashMap::new()]),
            (make_handle(2, 1), vec![s2], vec![HashMap::new()]),
        ],
    ));
    let mut op = Scan::new(reader, &[], vec![pred], CancellationToken::new()).unwrap();
    op.open().unwrap();

    let out = op.next_batch().unwrap().expect("batch");
    assert_eq!(out.num_rows(), 1);
    assert_eq!(drain_entity_ids(&mut op), Vec::<String>::new());
}

#[test]
fn cancelled_token_aborts_next_batch() {
    let batch = make_batch(&["u1"], &[1], &["a"]);
    let reader: Arc<VecReader> = Arc::new(VecReader::with_segments(
        minimal_schema(),
        vec![(make_handle(1, 1), vec![batch], vec![HashMap::new()])],
    ));
    let cancel = CancellationToken::new();
    let mut op = Scan::new(reader, &[], Vec::new(), cancel.clone()).unwrap();
    op.open().unwrap();
    cancel.cancel();
    let err = op.next_batch().err().expect("cancellation fires");
    assert!(matches!(err, BqliteError::Cancelled), "{err:?}");
}

#[test]
fn exhausted_scan_stays_none_after_cancellation() {
    let reader: Arc<VecReader> = Arc::new(VecReader::empty(minimal_schema()));
    let cancel = CancellationToken::new();
    let mut op = Scan::new(reader, &[], Vec::new(), cancel.clone()).unwrap();
    op.open().unwrap();
    assert!(op.next_batch().unwrap().is_none());
    cancel.cancel();
    assert!(op.next_batch().unwrap().is_none());
}

#[test]
fn close_is_idempotent() {
    let reader: Arc<VecReader> = Arc::new(VecReader::empty(minimal_schema()));
    let mut op = Scan::full_scan(reader).unwrap();
    op.close().unwrap();
    op.close().unwrap();
    op.close().unwrap();
}

#[test]
fn close_without_open_is_ok() {
    let reader: Arc<VecReader> = Arc::new(VecReader::empty(minimal_schema()));
    let mut op = Scan::full_scan(reader).unwrap();
    op.close().unwrap();
}

#[test]
fn close_after_drain_is_ok() {
    let batch = make_batch(&["u1"], &[1], &["a"]);
    let reader: Arc<VecReader> = Arc::new(VecReader::with_segments(
        minimal_schema(),
        vec![(make_handle(1, 1), vec![batch], vec![HashMap::new()])],
    ));
    let mut op = Scan::full_scan(reader).unwrap();
    op.open().unwrap();
    while op.next_batch().unwrap().is_some() {}
    op.close().unwrap();
}

#[test]
fn pushable_equal_lowers_to_scan_conjunct() {
    let output_schema = minimal_columns();
    let pred = compile_predicate(
        compare(CompareOp::Equal, col("event_type"), string_lit("checkout")),
        &output_schema,
    );
    let pred_opt = build_scan_predicate(&[pred]);
    let pred = pred_opt.expect("predicate lowered");
    let cols = pred.referenced_columns();
    assert_eq!(cols, &["event_type".to_string()]);
}

#[test]
fn pushable_equal_accepts_literal_on_either_side() {
    let output_schema = minimal_columns();
    let pred = compile_predicate(
        compare(CompareOp::Equal, string_lit("checkout"), col("event_type")),
        &output_schema,
    );
    assert!(build_scan_predicate(&[pred]).is_some());
}

#[test]
fn column_to_column_compare_is_not_pushable() {
    let output_schema = minimal_columns();
    let pred = compile_predicate(
        compare(CompareOp::Equal, col("entity_id"), col("event_type")),
        &output_schema,
    );
    assert!(build_scan_predicate(&[pred]).is_none());
}

#[test]
fn literal_to_literal_compare_is_not_pushable() {
    let output_schema = minimal_columns();
    let pred = compile_predicate(
        compare(CompareOp::Equal, string_lit("a"), string_lit("b")),
        &output_schema,
    );
    assert!(build_scan_predicate(&[pred]).is_none());
}

#[test]
fn is_null_on_column_lowers_to_is_null_conjunct() {
    let output_schema = minimal_columns();
    let pred = compile_predicate(
        Expr::IsNull {
            expr: Box::new(col("event_type")),
            negated: false,
        },
        &output_schema,
    );
    let pred = build_scan_predicate(&[pred]).expect("IsNull lowered");
    assert_eq!(pred.referenced_columns(), &["event_type".to_string()]);
}

#[test]
fn is_not_null_on_column_lowers_to_is_not_null_conjunct() {
    let output_schema = minimal_columns();
    let pred = compile_predicate(
        Expr::IsNull {
            expr: Box::new(col("event_type")),
            negated: true,
        },
        &output_schema,
    );
    let pred = build_scan_predicate(&[pred]).expect("IsNotNull lowered");
    assert_eq!(pred.referenced_columns(), &["event_type".to_string()]);
}

#[test]
fn in_literal_set_on_column_lowers_to_in_set_conjunct() {
    let output_schema = minimal_columns();
    let pred = compile_predicate(
        Expr::In {
            lhs: vec![col("event_type")],
            rhs: InRhs::List(vec![
                string_lit("checkout"),
                string_lit("signup"),
            ]),
            negated: false,
        },
        &output_schema,
    );
    let pred = build_scan_predicate(&[pred]).expect("InSet lowered");
    assert_eq!(pred.referenced_columns(), &["event_type".to_string()]);
}

#[test]
fn not_in_literal_set_is_not_pushable() {
    let output_schema = minimal_columns();
    let pred = compile_predicate(
        Expr::In {
            lhs: vec![col("event_type")],
            rhs: InRhs::List(vec![string_lit("spam"), string_lit("bot")]),
            negated: true,
        },
        &output_schema,
    );
    assert!(build_scan_predicate(&[pred]).is_none());
}

#[test]
fn multiple_pushable_conjuncts_compose_into_one_scan_predicate() {
    let output_schema = minimal_columns();
    let a = compile_predicate(
        compare(CompareOp::Equal, col("event_type"), string_lit("checkout")),
        &output_schema,
    );
    let b = compile_predicate(
        Expr::IsNull {
            expr: Box::new(col("entity_id")),
            negated: true,
        },
        &output_schema,
    );
    let pred = build_scan_predicate(&[a, b]).expect("both lowered");
    assert_eq!(
        pred.referenced_columns(),
        &["event_type".to_string(), "entity_id".to_string()]
    );
}

#[test]
fn encoded_path_matches_materialized_on_single_segment_eq_filter() {
    let output_schema = minimal_columns();
    let pred = compile_predicate(
        compare(CompareOp::Equal, col("event_type"), string_lit("keep")),
        &output_schema,
    );
    let batch = make_batch(
        &["u1", "u2", "u3", "u4"],
        &[10, 20, 30, 40],
        &["keep", "skip", "keep", "skip"],
    );
    let make_reader = || -> Arc<VecReader> {
        Arc::new(VecReader::with_segments(
            minimal_schema(),
            vec![(make_handle(1, 4), vec![batch.clone()], vec![HashMap::new()])],
        ))
    };

    let mut mat_op = Scan::with_scan_path(
        make_reader(),
        &[],
        vec![pred.clone()],
        CancellationToken::new(),
        ScanPath::Materialized,
    )
    .unwrap();
    mat_op.open().unwrap();
    let mat_pairs = drain_pairs(&mut mat_op);

    let mut enc_op = Scan::with_scan_path(
        make_reader(),
        &[],
        vec![pred],
        CancellationToken::new(),
        ScanPath::Encoded,
    )
    .unwrap();
    enc_op.open().unwrap();
    let enc_pairs = drain_pairs(&mut enc_op);

    assert_eq!(
        mat_pairs,
        vec![
            ("u1".to_string(), "keep".to_string()),
            ("u3".to_string(), "keep".to_string()),
        ]
    );
    assert_eq!(enc_pairs, mat_pairs, "encoded and materialized must agree");
}

#[test]
fn encoded_path_preserves_non_pushable_residual() {
    let output_schema = minimal_columns();
    let pred = compile_predicate(
        compare(CompareOp::Greater, col("ts"), int_lit(150)),
        &output_schema,
    );
    let batch = make_batch(
        &["u1", "u2", "u3", "u4"],
        &[100, 150, 200, 300],
        &["a", "b", "c", "d"],
    );
    let make_reader = || -> Arc<VecReader> {
        Arc::new(VecReader::with_segments(
            minimal_schema(),
            vec![(make_handle(1, 4), vec![batch.clone()], vec![HashMap::new()])],
        ))
    };

    let mut mat_op = Scan::with_scan_path(
        make_reader(),
        &[],
        vec![pred.clone()],
        CancellationToken::new(),
        ScanPath::Materialized,
    )
    .unwrap();
    mat_op.open().unwrap();
    let mat_ids = drain_entity_ids(&mut mat_op);

    let mut enc_op = Scan::with_scan_path(
        make_reader(),
        &[],
        vec![pred],
        CancellationToken::new(),
        ScanPath::Encoded,
    )
    .unwrap();
    enc_op.open().unwrap();
    let enc_ids = drain_entity_ids(&mut enc_op);

    assert_eq!(mat_ids, vec!["u3".to_string(), "u4".to_string()]);
    assert_eq!(enc_ids, mat_ids);
}

#[test]
fn encoded_path_multi_segment_preserves_entity_ts_order() {
    let s1 = make_batch(&["u1", "u3"], &[100, 300], &["a", "c"]);
    let s2 = make_batch(&["u2", "u2", "u4"], &[150, 200, 400], &["b", "b", "d"]);
    let reader: Arc<VecReader> = Arc::new(VecReader::with_segments(
        minimal_schema(),
        vec![
            (make_handle(1, 2), vec![s1], vec![HashMap::new()]),
            (make_handle(2, 3), vec![s2], vec![HashMap::new()]),
        ],
    ));
    let mut op = Scan::with_scan_path(
        reader,
        &[],
        Vec::new(),
        CancellationToken::new(),
        ScanPath::Encoded,
    )
    .unwrap();
    op.open().unwrap();
    assert_eq!(
        drain_entity_ids(&mut op),
        vec!["u1", "u2", "u2", "u3", "u4"],
    );
}

#[test]
fn encoded_and_materialized_paths_agree_on_multi_segment_with_pushable_eq() {
    let output_schema = minimal_columns();
    let pred = compile_predicate(
        compare(CompareOp::Equal, col("event_type"), string_lit("keep")),
        &output_schema,
    );
    let s1 = make_batch(&["u1", "u3"], &[100, 300], &["keep", "skip"]);
    let s2 = make_batch(
        &["u2", "u2", "u4"],
        &[150, 200, 400],
        &["keep", "skip", "keep"],
    );
    let make_reader = || -> Arc<VecReader> {
        Arc::new(VecReader::with_segments(
            minimal_schema(),
            vec![
                (make_handle(1, 2), vec![s1.clone()], vec![HashMap::new()]),
                (make_handle(2, 3), vec![s2.clone()], vec![HashMap::new()]),
            ],
        ))
    };

    let mut mat_op = Scan::with_scan_path(
        make_reader(),
        &[],
        vec![pred.clone()],
        CancellationToken::new(),
        ScanPath::Materialized,
    )
    .unwrap();
    mat_op.open().unwrap();
    let mat_pairs = drain_pairs(&mut mat_op);

    let mut enc_op = Scan::with_scan_path(
        make_reader(),
        &[],
        vec![pred],
        CancellationToken::new(),
        ScanPath::Encoded,
    )
    .unwrap();
    enc_op.open().unwrap();
    let enc_pairs = drain_pairs(&mut enc_op);

    assert_eq!(
        mat_pairs,
        vec![
            ("u1".to_string(), "keep".to_string()),
            ("u2".to_string(), "keep".to_string()),
            ("u4".to_string(), "keep".to_string()),
        ],
    );
    assert_eq!(enc_pairs, mat_pairs, "encoded and materialized must agree");
}

#[test]
fn encoded_multi_segment_preserves_tie_break_on_duplicate_entity_ts() {
    let s1 = make_batch(&["u1"], &[100], &["a"]);
    let s2 = make_batch(&["u1"], &[100], &["b"]);
    let make_reader = || -> Arc<VecReader> {
        Arc::new(VecReader::with_segments(
            minimal_schema(),
            vec![
                (make_handle(1, 1), vec![s1.clone()], vec![HashMap::new()]),
                (make_handle(2, 1), vec![s2.clone()], vec![HashMap::new()]),
            ],
        ))
    };

    let mut mat_op = Scan::with_scan_path(
        make_reader(),
        &[],
        Vec::new(),
        CancellationToken::new(),
        ScanPath::Materialized,
    )
    .unwrap();
    mat_op.open().unwrap();
    let mat_pairs = drain_pairs(&mut mat_op);

    let mut enc_op = Scan::with_scan_path(
        make_reader(),
        &[],
        Vec::new(),
        CancellationToken::new(),
        ScanPath::Encoded,
    )
    .unwrap();
    enc_op.open().unwrap();
    let enc_pairs = drain_pairs(&mut enc_op);

    assert_eq!(
        mat_pairs,
        vec![
            ("u1".to_string(), "a".to_string()),
            ("u1".to_string(), "b".to_string()),
        ],
        "lower-indexed segment (event_type='a') must come first",
    );
    assert_eq!(enc_pairs, mat_pairs);
}

#[test]
fn encoded_multi_segment_with_fully_filtered_source() {
    let output_schema = minimal_columns();
    let pred = compile_predicate(
        compare(CompareOp::Equal, col("event_type"), string_lit("keep")),
        &output_schema,
    );
    let s1 = make_batch(&["u1", "u3"], &[100, 300], &["keep", "keep"]);
    let s2 = make_batch(&["u2", "u4"], &[200, 400], &["skip", "skip"]);
    let make_reader = || -> Arc<VecReader> {
        Arc::new(VecReader::with_segments(
            minimal_schema(),
            vec![
                (make_handle(1, 2), vec![s1.clone()], vec![HashMap::new()]),
                (make_handle(2, 2), vec![s2.clone()], vec![HashMap::new()]),
            ],
        ))
    };

    let mut mat_op = Scan::with_scan_path(
        make_reader(),
        &[],
        vec![pred.clone()],
        CancellationToken::new(),
        ScanPath::Materialized,
    )
    .unwrap();
    mat_op.open().unwrap();
    let mat_ids = drain_entity_ids(&mut mat_op);

    let mut enc_op = Scan::with_scan_path(
        make_reader(),
        &[],
        vec![pred],
        CancellationToken::new(),
        ScanPath::Encoded,
    )
    .unwrap();
    enc_op.open().unwrap();
    let enc_ids = drain_entity_ids(&mut enc_op);

    assert_eq!(mat_ids, vec!["u1".to_string(), "u3".to_string()]);
    assert_eq!(enc_ids, mat_ids);
}

#[test]
fn empty_tombstone_snapshot_is_noop() {
    let segments = vec![
        (
            handle_for(1, 0, 0, 2),
            vec![make_batch(&["a1", "a2"], &[100, 200], &["e1", "e2"])],
            vec![zones_for("a1", "a2", 100, 200)],
        ),
        (
            handle_for(2, 0, 1, 3),
            vec![make_batch(
                &["b1", "b2", "b3"],
                &[300, 400, 500],
                &["e3", "e4", "e5"],
            )],
            vec![zones_for("b1", "b3", 300, 500)],
        ),
    ];
    let reader: Arc<VecReader> =
        Arc::new(VecReader::with_segments(minimal_schema(), segments));
    let mut op = Scan::with_tombstones(
        reader,
        &[],
        Vec::new(),
        CancellationToken::new(),
        Snapshot::empty(),
    )
    .unwrap();
    op.open().unwrap();
    let ids = drain_entity_ids(&mut op);
    assert_eq!(ids, vec!["a1", "a2", "b1", "b2", "b3"]);
}

#[test]
fn entity_tombstones_filter_across_segments() {
    let segments = vec![
        (
            handle_for(1, 0, 0, 2),
            vec![make_batch(&["alice", "bob"], &[100, 200], &["e1", "e2"])],
            vec![zones_for("alice", "bob", 100, 200)],
        ),
        (
            handle_for(2, 0, 0, 2),
            vec![make_batch(&["alice", "carol"], &[300, 400], &["e3", "e4"])],
            vec![zones_for("alice", "carol", 300, 400)],
        ),
    ];
    let reader: Arc<VecReader> =
        Arc::new(VecReader::with_segments(minimal_schema(), segments));
    let snap = Snapshot::from_map([(
        (0, 0),
        TombstoneFile::for_entities([ScalarValue::String("alice".into())]),
    )]);
    let mut op = Scan::with_tombstones(
        reader,
        &[],
        Vec::new(),
        CancellationToken::new(),
        snap,
    )
    .unwrap();
    op.open().unwrap();
    let ids = drain_entity_ids(&mut op);
    assert_eq!(ids, vec!["bob", "carol"]);
}

#[test]
fn time_range_tombstones_filter_correctly() {
    let segments = vec![(
        handle_for(1, 0, 0, 3),
        vec![make_batch(
            &["alice", "bob", "carol"],
            &[100, 200, 300],
            &["e1", "e2", "e3"],
        )],
        vec![zones_for("alice", "carol", 100, 300)],
    )];
    let reader: Arc<VecReader> =
        Arc::new(VecReader::with_segments(minimal_schema(), segments));
    let snap = Snapshot::from_map([(
        (0, 0),
        TombstoneFile::for_time_range(TimeRangeDelete {
            min_ts: Some(150),
            min_inclusive: true,
            max_ts: Some(250),
            max_inclusive: false,
        }),
    )]);
    let mut op = Scan::with_tombstones(
        reader,
        &[],
        Vec::new(),
        CancellationToken::new(),
        snap,
    )
    .unwrap();
    op.open().unwrap();
    let ids = drain_entity_ids(&mut op);
    assert_eq!(ids, vec!["alice", "carol"]);
}

#[test]
fn per_shard_snapshot_isolates_other_shards() {
    let segments = vec![
        (
            handle_for(1, 0, 0, 2),
            vec![make_batch(&["alice", "alice"], &[100, 200], &["e1", "e2"])],
            vec![zones_for("alice", "alice", 100, 200)],
        ),
        (
            handle_for(2, 0, 1, 2),
            vec![make_batch(&["alice", "bob"], &[300, 400], &["e3", "e4"])],
            vec![zones_for("alice", "bob", 300, 400)],
        ),
    ];
    let reader: Arc<VecReader> =
        Arc::new(VecReader::with_segments(minimal_schema(), segments));
    let snap = Snapshot::from_map([(
        (0, 0),
        TombstoneFile::for_entities([ScalarValue::String("alice".into())]),
    )]);
    let mut op = Scan::with_tombstones(
        reader,
        &[],
        Vec::new(),
        CancellationToken::new(),
        snap,
    )
    .unwrap();
    op.open().unwrap();
    let ids = drain_entity_ids(&mut op);
    assert_eq!(ids, vec!["alice", "bob"]);
}

#[test]
fn multi_window_tombstones_apply_independently() {
    let segments = vec![
        (
            handle_for(1, 0, 0, 2),
            vec![make_batch(&["alice", "bob"], &[100, 200], &["e1", "e2"])],
            vec![zones_for("alice", "bob", 100, 200)],
        ),
        (
            handle_for(2, 1, 0, 2),
            vec![make_batch(&["alice", "bob"], &[300, 400], &["e3", "e4"])],
            vec![zones_for("alice", "bob", 300, 400)],
        ),
    ];
    let reader: Arc<VecReader> =
        Arc::new(VecReader::with_segments(minimal_schema(), segments));
    let snap = Snapshot::from_map([(
        (0, 0),
        TombstoneFile::for_entities([ScalarValue::String("alice".into())]),
    )]);
    let mut op = Scan::with_tombstones(
        reader,
        &[],
        Vec::new(),
        CancellationToken::new(),
        snap,
    )
    .unwrap();
    op.open().unwrap();
    let ids = drain_entity_ids(&mut op);
    assert_eq!(ids, vec!["alice", "bob", "bob"]);
}

#[test]
fn tombstone_filter_runs_before_post_filter() {
    let segments = vec![(
        handle_for(1, 0, 0, 3),
        vec![make_batch(
            &["alice", "bob", "carol"],
            &[100, 200, 300],
            &["e1", "e1", "e2"],
        )],
        vec![zones_for("alice", "carol", 100, 300)],
    )];
    let reader = Arc::new(VecReader::with_segments(minimal_schema(), segments));

    let operator_schema =
        build_output_schema(reader.schema(), &ColumnProjection::all()).unwrap();
    let pred = compile_predicate(
        compare(CompareOp::Equal, col("event_type"), string_lit("e1")),
        &operator_schema,
    );
    let snap = Snapshot::from_map([(
        (0, 0),
        TombstoneFile::for_entities([ScalarValue::String("alice".into())]),
    )]);
    let mut op = Scan::with_tombstones(
        reader,
        &[],
        vec![pred],
        CancellationToken::new(),
        snap,
    )
    .unwrap();
    op.open().unwrap();
    let ids = drain_entity_ids(&mut op);
    assert_eq!(ids, vec!["bob"]);
}

#[test]
fn encoded_path_forced_to_materialized_when_any_segment_wrapped() {
    let segments = vec![
        (
            handle_for(1, 0, 0, 2),
            vec![make_batch(&["alice", "bob"], &[100, 200], &["e1", "e2"])],
            vec![zones_for("alice", "bob", 100, 200)],
        ),
        (
            handle_for(2, 0, 1, 2),
            vec![make_batch(&["carol", "dan"], &[300, 400], &["e3", "e4"])],
            vec![zones_for("carol", "dan", 300, 400)],
        ),
    ];
    let reader: Arc<VecReader> =
        Arc::new(VecReader::with_segments(minimal_schema(), segments));
    let snap = Snapshot::from_map([(
        (0, 0),
        TombstoneFile::for_entities([ScalarValue::String("alice".into())]),
    )]);
    let mut op = Scan::with_tombstones_and_scan_path(
        reader,
        &[],
        Vec::new(),
        CancellationToken::new(),
        ScanPath::Encoded,
        snap,
    )
    .unwrap();
    op.open().unwrap();
    let ids = drain_entity_ids(&mut op);
    assert_eq!(ids, vec!["bob", "carol", "dan"]);
}

#[test]
fn encoded_path_preserved_when_snapshot_is_empty() {
    let segments = vec![
        (
            handle_for(1, 0, 0, 2),
            vec![make_batch(&["alice", "bob"], &[100, 200], &["e1", "e2"])],
            vec![zones_for("alice", "bob", 100, 200)],
        ),
        (
            handle_for(2, 0, 1, 2),
            vec![make_batch(&["carol", "dan"], &[300, 400], &["e3", "e4"])],
            vec![zones_for("carol", "dan", 300, 400)],
        ),
    ];
    let reader: Arc<VecReader> =
        Arc::new(VecReader::with_segments(minimal_schema(), segments));
    let mut op = Scan::with_tombstones_and_scan_path(
        reader,
        &[],
        Vec::new(),
        CancellationToken::new(),
        ScanPath::Encoded,
        Snapshot::empty(),
    )
    .unwrap();
    op.open().unwrap();
    let ids = drain_entity_ids(&mut op);
    assert_eq!(ids, vec!["alice", "bob", "carol", "dan"]);
}

#[test]
fn tombstones_only_wrap_affected_shards() {
    let segments = vec![
        (
            handle_for(1, 0, 0, 1),
            vec![make_batch(&["alice"], &[100], &["e1"])],
            vec![zones_for("alice", "alice", 100, 100)],
        ),
        (
            handle_for(2, 0, 1, 1),
            vec![make_batch(&["alice"], &[100], &["e1"])],
            vec![zones_for("alice", "alice", 100, 100)],
        ),
    ];
    let reader: Arc<VecReader> =
        Arc::new(VecReader::with_segments(minimal_schema(), segments));
    let snap = Snapshot::from_map([(
        (0, 0),
        TombstoneFile::for_entities([ScalarValue::String("alice".into())]),
    )]);
    let mut op = Scan::with_tombstones(
        reader,
        &[],
        Vec::new(),
        CancellationToken::new(),
        snap,
    )
    .unwrap();
    op.open().unwrap();
    let ids = drain_entity_ids(&mut op);
    assert_eq!(ids, vec!["alice"]);
}

#[test]
fn snapshot_is_consulted_once_per_segment() {
    let segments = vec![(
        handle_for(1, 0, 0, 2),
        vec![make_batch(&["alice", "bob"], &[100, 200], &["e1", "e2"])],
        vec![zones_for("alice", "bob", 100, 200)],
    )];
    let reader: Arc<VecReader> =
        Arc::new(VecReader::with_segments(minimal_schema(), segments));
    let snap = Snapshot::from_map([((0u32, 0u16), TombstoneFile::default())]);
    assert!(snap.is_empty(), "empty TombstoneFile entries are dropped");
    let mut op = Scan::with_tombstones(
        reader,
        &[],
        Vec::new(),
        CancellationToken::new(),
        snap,
    )
    .unwrap();
    op.open().unwrap();
    let ids = drain_entity_ids(&mut op);
    assert_eq!(ids, vec!["alice", "bob"]);
}

#[test]
fn row_tombstones_filter_via_materialised_seq_id() {
    let mut handle = handle_for(1, 0, 0, 1);
    handle.seq_id_first = 42;
    handle.batch_id = 1;
    let segments = vec![(
        handle,
        vec![make_batch_at(&["alice"], &[100], &["e1"], 42, 1)],
        vec![zones_for("alice", "alice", 100, 100)],
    )];
    let reader: Arc<VecReader> =
        Arc::new(VecReader::with_segments(minimal_schema(), segments));
    let snap = Snapshot::from_map([((0, 0), TombstoneFile::for_rows([42]))]);
    let mut op = Scan::with_tombstones(
        reader,
        &[],
        Vec::new(),
        CancellationToken::new(),
        snap,
    )
    .unwrap();
    op.open().unwrap();
    let mut total_rows: usize = 0;
    while let Some(b) = op.next_batch().unwrap() {
        total_rows += b.num_rows();
    }
    assert_eq!(
        total_rows, 0,
        "row tombstone for __seq_id=42 should drop the only row"
    );
}

#[test]
fn multi_row_group_segment_filters_each_group() {
    let segments = vec![(
        handle_for(1, 0, 0, 4),
        vec![
            make_batch(&["alice", "bob"], &[100, 200], &["e1", "e2"]),
            make_batch(&["alice", "carol"], &[300, 400], &["e3", "e4"]),
        ],
        vec![
            zones_for("alice", "bob", 100, 200),
            zones_for("alice", "carol", 300, 400),
        ],
    )];
    let reader: Arc<VecReader> =
        Arc::new(VecReader::with_segments(minimal_schema(), segments));
    let snap = Snapshot::from_map([(
        (0, 0),
        TombstoneFile::for_entities([ScalarValue::String("alice".into())]),
    )]);
    let mut op = Scan::with_tombstones(
        reader,
        &[],
        Vec::new(),
        CancellationToken::new(),
        snap,
    )
    .unwrap();
    op.open().unwrap();
    let ids = drain_entity_ids(&mut op);
    assert_eq!(ids, vec!["bob", "carol"]);
}

#[test]
fn encoded_row_tombstone_offset_survives_kernel_skipped_row_group() {
    let mut h = handle_for(1, 0, 0, 4);
    h.seq_id_first = 100;
    h.batch_id = 1;
    let rg0 = make_batch_at(&["u0", "u1"], &[10, 20], &["skip", "skip"], 100, 1);
    let rg1 = make_batch_at(&["u2", "u3"], &[30, 40], &["keep", "keep"], 102, 1);
    let segments = vec![(
        h,
        vec![rg0, rg1],
        vec![zones_for("u0", "u1", 10, 20), zones_for("u2", "u3", 30, 40)],
    )];
    let reader: Arc<VecReader> =
        Arc::new(VecReader::with_segments(minimal_schema(), segments));

    let output_schema = minimal_columns();
    let pred = compile_predicate(
        compare(CompareOp::Equal, col("event_type"), string_lit("keep")),
        &output_schema,
    );
    let snap = Snapshot::from_map([((0, 0), TombstoneFile::for_rows([103]))]);
    let mut op = Scan::with_tombstones_and_scan_path(
        reader,
        &[],
        vec![pred],
        CancellationToken::new(),
        ScanPath::Encoded,
        snap,
    )
    .unwrap();
    op.open().unwrap();
    let pairs = drain_pairs(&mut op);
    assert_eq!(pairs, vec![("u2".to_string(), "keep".to_string())]);
}

#[test]
fn encoded_path_single_tombstoned_segment_drops_into_encoded_merge() {
    let mut h = handle_for(1, 0, 0, 2);
    h.seq_id_first = 0;
    h.batch_id = 0;
    let segments = vec![(
        h,
        vec![make_batch_at(
            &["alice", "bob"],
            &[10, 20],
            &["e1", "e2"],
            0,
            0,
        )],
        vec![zones_for("alice", "bob", 10, 20)],
    )];
    let reader: Arc<VecReader> =
        Arc::new(VecReader::with_segments(minimal_schema(), segments));
    let snap = Snapshot::from_map([(
        (0, 0),
        TombstoneFile::for_entities([ScalarValue::String("alice".into())]),
    )]);
    let mut op = Scan::with_tombstones_and_scan_path(
        reader,
        &[],
        Vec::new(),
        CancellationToken::new(),
        ScanPath::Encoded,
        snap,
    )
    .unwrap();
    op.open().unwrap();
    assert!(
        op.op.holder == ScanHolder::EncodedMerge,
        "tombstoned single-segment scan must run through encoded_merge"
    );
    assert!(op.op.holder != ScanHolder::EncodedScan);
    let ids = drain_entity_ids(&mut op);
    assert_eq!(ids, vec!["bob"]);
}

#[test]
fn sample_filter_pass_through_keeps_every_row() {
    let reader = sample_reader();
    let filter = SampleFilter::new(1.0, 0, "entity_id", BqlType::String).unwrap();
    let mut op = Scan::full_scan(reader).unwrap();
    op.with_sample_filter(filter);
    op.open().unwrap();
    let ids = drain_entity_ids(&mut op);
    assert_eq!(ids, vec!["u0", "u1", "u2", "u3"]);
}

#[test]
fn sample_filter_empty_set_short_circuits_to_none() {
    let reader = sample_reader();
    let filter = SampleFilter::new(0.0, 0, "entity_id", BqlType::String).unwrap();
    let mut op = Scan::full_scan(reader).unwrap();
    op.with_sample_filter(filter);
    op.open().unwrap();
    assert!(op.next_batch().unwrap().is_none());
    assert!(op.next_batch().unwrap().is_none());
}

#[test]
fn sample_filter_half_fraction_returns_deterministic_subset() {
    let filter_spec = || {
        SampleFilter::new(0.5, 42, "entity_id", BqlType::String).unwrap()
    };

    let mut op1 = Scan::full_scan(sample_reader()).unwrap();
    op1.with_sample_filter(filter_spec());
    op1.open().unwrap();
    let ids1 = drain_entity_ids(&mut op1);

    let mut op2 = Scan::full_scan(sample_reader()).unwrap();
    op2.with_sample_filter(filter_spec());
    op2.open().unwrap();
    let ids2 = drain_entity_ids(&mut op2);

    assert_eq!(ids1, ids2, "sample filter is not deterministic");
    let all = ["u0".to_string(), "u1".into(), "u2".into(), "u3".into()];
    for id in &ids1 {
        assert!(all.contains(id), "unexpected sampled id {id}");
    }
    assert!(ids1.len() < all.len() && !ids1.is_empty());
}

#[test]
fn sample_filter_zone_map_prunes_rejected_row_groups() {

    let filter =
        SampleFilter::new(0.5, 42, "entity_id", BqlType::String).unwrap();
    let names = ["u0", "u1", "u2", "u3"];
    let accepted: Vec<&str> = names
        .iter()
        .copied()
        .filter(|n| filter.accepts_str(n.as_bytes()))
        .collect();
    let rejected: Vec<&str> = names
        .iter()
        .copied()
        .filter(|n| !filter.accepts_str(n.as_bytes()))
        .collect();
    assert!(
        !accepted.is_empty() && !rejected.is_empty(),
        "need both sides"
    );

    let mut segments = Vec::new();
    for (i, name) in names.iter().enumerate() {
        let batch = make_batch(&[name], &[100 + i as i64], &["a"]);
        segments.push((
            make_handle(i as u64, 1),
            vec![batch],
            vec![entity_singleton_zone(name)],
        ));
    }
    let reader: Arc<VecReader> =
        Arc::new(VecReader::with_segments(minimal_schema(), segments));
    let mut op = Scan::full_scan(reader).unwrap();
    op.with_sample_filter(filter);
    op.open().unwrap();
    let ids = drain_entity_ids(&mut op);

    let mut expected: Vec<String> = accepted.iter().map(|s| s.to_string()).collect();
    expected.sort();
    assert_eq!(
        ids, expected,
        "zone-pruned output must match per-row filter"
    );
}

#[test]
fn sample_filter_zone_map_pass_through_accepts_every_zone() {
    let filter =
        SampleFilter::new(1.0, 0, "entity_id", BqlType::String).unwrap();
    let names = ["u0", "u1"];
    let mut segments = Vec::new();
    for (i, name) in names.iter().enumerate() {
        let batch = make_batch(&[name], &[100 + i as i64], &["a"]);
        segments.push((
            make_handle(i as u64, 1),
            vec![batch],
            vec![entity_singleton_zone(name)],
        ));
    }
    let reader: Arc<VecReader> =
        Arc::new(VecReader::with_segments(minimal_schema(), segments));
    let mut op = Scan::full_scan(reader).unwrap();
    op.with_sample_filter(filter);
    op.open().unwrap();
    assert_eq!(drain_entity_ids(&mut op), vec!["u0", "u1"]);
}

#[test]
fn sample_filter_composes_with_post_filters() {
    let schema = minimal_columns();
    let pred = compile_predicate(
        compare(CompareOp::Equal, col("event_type"), string_lit("c")),
        &schema,
    );

    let mut op = Scan::new(
        sample_reader(),
        &[],
        vec![pred.clone()],
        CancellationToken::new(),
    )
    .unwrap();
    op.open().unwrap();
    assert_eq!(drain_entity_ids(&mut op), vec!["u2"]);

    let filter = SampleFilter::new(1.0, 0, "entity_id", BqlType::String).unwrap();
    let mut op = Scan::new(
        sample_reader(),
        &[],
        vec![pred.clone()],
        CancellationToken::new(),
    )
    .unwrap();
    op.with_sample_filter(filter);
    op.open().unwrap();
    assert_eq!(drain_entity_ids(&mut op), vec!["u2"]);

    let empty = SampleFilter::new(0.0, 0, "entity_id", BqlType::String).unwrap();
    let mut op =
        Scan::new(sample_reader(), &[], vec![pred], CancellationToken::new()).unwrap();
    op.with_sample_filter(empty);
    op.open().unwrap();
    assert!(op.next_batch().unwrap().is_none());
}

#[test]
fn open_surfaces_enumeration_error() {
    let mut reader = VecReader::empty(minimal_schema());
    reader.list_fails = true;
    let mut op = Scan::full_scan(Arc::new(reader)).unwrap();
    let err = op.open().err().expect("enumeration error surfaces");
    assert!(matches!(err, BqliteError::Io(_)), "{err:?}");
}

#[test]
fn open_surfaces_per_segment_open_error() {
    let segments = vec![(make_handle(1, 0), vec![], vec![])];
    let mut reader = VecReader::with_segments(minimal_schema(), segments);
    reader.open_fails = true;
    let mut op = Scan::full_scan(Arc::new(reader)).unwrap();
    let err = op.open().err().expect("per-segment open error surfaces");
    assert!(matches!(err, BqliteError::Execution(_)), "{err:?}");
}

#[test]
fn predicate_not_converted_still_forwarded_as_none_to_reader() {
    let pred = compile_predicate(
        compare(CompareOp::Equal, col("entity_id"), col("event_type")),
        &minimal_columns(),
    );
    let batch = make_batch(&["u1"], &[200], &["u1"]);
    let reader = Arc::new(VecReader::with_segments(
        minimal_schema(),
        vec![(make_handle(1, 1), vec![batch], vec![HashMap::new()])],
    ));
    let inspect = reader.clone();
    let mut op = Scan::new(reader, &[], vec![pred], CancellationToken::new()).unwrap();
    op.open().unwrap();
    let _ = op.next_batch().unwrap();
    assert_eq!(inspect.open_calls(), 1);
    assert!(
        !inspect.had_predicate(),
        "non-pushable predicates should not materialise a ScanPredicate"
    );
}

#[test]
fn encoded_and_materialized_paths_agree_under_tombstones() {
    let segments = || {
        let mut h1 = handle_for(1, 0, 0, 4);
        h1.seq_id_first = 100;
        h1.batch_id = 1;
        let mut h2 = handle_for(2, 0, 0, 3);
        h2.seq_id_first = 200;
        h2.batch_id = 2;
        let mut h3 = handle_for(3, 0, 1, 2);
        h3.seq_id_first = 300;
        h3.batch_id = 3;
        let b1 = make_batch_at(
            &["alice", "alice", "bob", "carol"],
            &[10, 20, 30, 40],
            &["e1", "e2", "e3", "e4"],
            100,
            1,
        );
        let b2 = make_batch_at(
            &["dave", "eve", "frank"],
            &[50, 60, 70],
            &["e5", "e6", "e7"],
            200,
            2,
        );
        let b3 = make_batch_at(&["alice", "grace"], &[80, 90], &["e8", "e9"], 300, 3);
        vec![
            (h1, vec![b1], vec![zones_for("alice", "carol", 10, 40)]),
            (h2, vec![b2], vec![zones_for("dave", "frank", 50, 70)]),
            (h3, vec![b3], vec![zones_for("alice", "grace", 80, 90)]),
        ]
    };
    let snap = || {
        let mut tf = TombstoneFile::for_entities([ScalarValue::String("alice".into())]);
        tf.merge(TombstoneFile::for_rows([200]));
        tf.merge(TombstoneFile::for_time_range(TimeRangeDelete {
            min_ts: Some(60),
            min_inclusive: true,
            max_ts: Some(60),
            max_inclusive: true,
        }));
        tf.merge(TombstoneFile::for_batches([99]));
        Snapshot::from_map([((0, 0), tf)])
    };
    let reader = || Arc::new(VecReader::with_segments(minimal_schema(), segments()));
    let materialized = drain_with_path(reader(), snap(), ScanPath::Materialized);
    let encoded = drain_with_path(reader(), snap(), ScanPath::Encoded);
    let expected: Vec<(String, i64)> = vec![
        ("alice".into(), 300),
        ("bob".into(), 102),
        ("carol".into(), 103),
        ("frank".into(), 202),
        ("grace".into(), 301),
    ];
    assert_eq!(materialized, expected);
    assert_eq!(
        materialized, encoded,
        "encoded path must produce the same rows as the materialized path"
    );
}

#[test]
fn system_columns_can_be_named() {
    let reader = Arc::new(VecReader::empty(minimal_schema()));
    let projection = vec![
        "__batch_id".to_string(),
        "event_type".to_string(),
        "ts".to_string(),
        "entity_id".to_string(),
    ];
    let scan = Scan::new(reader, &projection, Vec::new(), CancellationToken::new()).unwrap();
    let names: Vec<&str> = scan.output_schema().columns().iter().map(|c| c.name.as_str()).collect();
    assert_eq!(names, vec!["entity_id", "ts", "event_type", "__batch_id"]);
    assert_eq!(
        scan.op.types,
        vec![BqlType::String, BqlType::Timestamp, BqlType::String, BqlType::Int]
    );
    assert_eq!((scan.op.entity_col, scan.op.ts_col), (0, 1));
}

#[test]
fn a_system_column_named_twice_is_refused() {
    let projection = ColumnProjection::with_columns(vec![
        "__seq_id".to_string(),
        "__seq_id".to_string(),
    ]);
    let e = build_output_schema(&minimal_schema(), &projection).err().unwrap();
    assert!(matches!(&e, BqliteError::Schema(m) if m.contains("__seq_id")), "{e:?}");
}

#[test]
fn the_text_of_an_unknown_column_is_exact() {
    let projection = ColumnProjection::with_columns(vec!["nope".to_string()]);
    let e = build_output_schema(&minimal_schema(), &projection).err().unwrap();
    assert_eq!(
        e.message(),
        "scan: projected column `nope` not in table `events` and is not a recognised system column"
    );
}

#[test]
fn a_comparison_with_the_column_on_the_right_is_turned() {
    let turned = |op: CompareOp| -> RangeOp {
        let pred = compile_predicate(compare(op, int_lit(5), col("ts")), &minimal_columns());
        let p = build_scan_predicate(&[pred]).unwrap();
        match &p.conjuncts[0] {
            ScanConjunct::Range { column, op, value: PropertyValue::Int(5) } if column == "ts" => *op,
            other => panic!("{other:?}"),
        }
    };
    assert_eq!(turned(CompareOp::Less), RangeOp::Gt);
    assert_eq!(turned(CompareOp::LessOrEqual), RangeOp::Ge);
    assert_eq!(turned(CompareOp::Greater), RangeOp::Lt);
    assert_eq!(turned(CompareOp::GreaterOrEqual), RangeOp::Le);
}

#[test]
fn lowered_tests_carry_the_constants() {
    let lower = |e: Expr| -> ScanConjunct {
        let pred = compile_predicate(e, &minimal_columns());
        predicate::lower_to_conjunct(&pred.compiled()).unwrap()
    };
    let e = lower(compare(CompareOp::NotEqual, col("event_type"), string_lit("x")));
    assert!(matches!(&e, ScanConjunct::NotEqual { column, value: PropertyValue::String(s) }
        if column == "event_type" && s == "x"));
    let e = lower(Expr::In {
        lhs: vec![col("event_type")],
        rhs: InRhs::List(vec![string_lit("a"), string_lit("b")]),
        negated: false,
    });
    assert!(matches!(&e, ScanConjunct::InSet { column, values }
        if column == "event_type" && values.len() == 2));
    let e = lower(Expr::IsNull { expr: Box::new(col("ts")), negated: true });
    assert!(matches!(&e, ScanConjunct::IsNotNull { column } if column == "ts"));
}

#[test]
fn a_column_that_is_tested_twice_is_listed_once() {
    let p = ScanPredicate::new(vec![
        ScanConjunct::IsNull { column: "b".into() },
        ScanConjunct::IsNull { column: "a".into() },
        ScanConjunct::IsNotNull { column: "b".into() },
    ]);
    assert_eq!(p.referenced_columns(), &["b".to_string(), "a".to_string()]);
}

#[test]
fn a_scan_is_opened_before_it_is_read() {
    let mut op = Scan::full_scan(sample_reader()).unwrap();
    let e = op.next_batch().err().unwrap();
    assert_eq!(e.message(), "ScanOperator::next_batch called before open()");
}

#[test]
fn extra_tests_reach_the_storage_layer() {
    let reader = Arc::new(VecReader::with_segments(
        minimal_schema(),
        vec![(
            make_handle(1, 2),
            vec![make_batch(&["u1"], &[1], &["a"]), make_batch(&["u2"], &[2], &["a"])],
            vec![entity_singleton_zone("u1"), entity_singleton_zone("u2")],
        )],
    ));
    let mut op = Scan::full_scan(reader.clone()).unwrap();
    let test = |value: &str| ScanConjunct::Equal {
        column: "entity_id".into(),
        value: PropertyValue::String(value.into()),
    };
    op.op.with_extra_conjuncts(vec![test("u2")]);
    op.op.with_extra_conjuncts(vec![test("u2")]);
    op.open().unwrap();
    assert_eq!(op.op.scan_predicate.as_ref().unwrap().conjuncts.len(), 2);
    assert_eq!(op.op.extra_conjuncts.len(), 0);
    assert!(reader.had_predicate());
    assert_eq!(reader.skipped.load(Ordering::SeqCst), 1);
    assert_eq!(drain_entity_ids(&mut op), vec!["u2"]);
}

#[test]
fn the_storage_layer_is_given_what_there_is() {
    let zone = |tests: bool, sample: Option<SampleKind>| {
        let mut op = ScanOperator::full_scan(&minimal_schema(), ScanPath::Auto).unwrap();
        if tests {
            op.with_extra_conjuncts(vec![ScanConjunct::IsNull { column: "ts".into() }]);
        }
        if let Some(kind) = sample {
            op.with_sample_filter(kind);
        }
        op.begin_open()
    };
    let segments = OpenStart::Segments;
    assert_eq!(zone(false, None), segments(ZonePredicate::Nothing));
    assert_eq!(zone(true, None), segments(ZonePredicate::Tests));
    assert_eq!(zone(false, Some(SampleKind::PassThrough)), segments(ZonePredicate::Nothing));
    assert_eq!(zone(false, Some(SampleKind::Partial)), segments(ZonePredicate::Sample));
    assert_eq!(zone(true, Some(SampleKind::Partial)), segments(ZonePredicate::Both));
    assert_eq!(zone(true, Some(SampleKind::EmptySet)), OpenStart::Nothing);
}

#[test]
fn deletes_are_wrapped_in_the_way_of_the_path() {
    let wraps = |path: ScanPath, deletes: Vec<bool>| {
        let mut op = ScanOperator::full_scan(&minimal_schema(), path).unwrap();
        let wraps = op.finish_open(&deletes);
        (wraps, op.holder)
    };
    assert_eq!(
        wraps(ScanPath::Materialized, vec![true, false]),
        (vec![SegmentWrap::Materialized, SegmentWrap::Plain], ScanHolder::Merge)
    );
    assert_eq!(
        wraps(ScanPath::Auto, vec![true, false]),
        (vec![SegmentWrap::Encoded, SegmentWrap::Plain], ScanHolder::EncodedMerge)
    );
    assert_eq!(
        wraps(ScanPath::Encoded, vec![false]),
        (vec![SegmentWrap::Plain], ScanHolder::EncodedScan)
    );
    assert_eq!(wraps(ScanPath::Encoded, vec![]), (vec![], ScanHolder::EncodedMerge));
}

#[test]
fn a_window_out_of_range_has_no_deletes() {
    let snapshot = TombstoneSnapshot { shards: vec![(0, 0), (7, 3)] };
    assert!(snapshot.has_deletes(7, 3));
    assert!(!snapshot.has_deletes(7, 4));
    assert!(!snapshot.has_deletes(1 << 32, 0));
    assert!(!snapshot.has_deletes(0, 1 << 16));
    assert!(!TombstoneSnapshot::empty().has_deletes(0, 0));
}

#[test]
fn a_row_group_without_rows_is_passed_over() {
    let reader = Arc::new(VecReader::with_segments(
        minimal_schema(),
        vec![(
            make_handle(1, 1),
            vec![make_batch(&[], &[], &[]), make_batch(&["u1"], &[1], &["a"])],
            vec![HashMap::new(), HashMap::new()],
        )],
    ));
    let mut op = Scan::full_scan(reader).unwrap();
    op.open().unwrap();
    assert_eq!(op.next_batch().unwrap().unwrap().num_rows(), 1);
    assert!(op.next_batch().unwrap().is_none());
}

#[test]
fn rows_pass_when_every_mask_holds() {
    let batch = make_batch(&["a", "b", "c", "d"], &[1, 2, 3, 4], &["x"; 4]);
    let first = BooleanArray::from(vec![Some(true), Some(true), None, Some(false)]);
    let second = BooleanArray::from(vec![Some(true), Some(false), Some(true), Some(true)]);
    let masks = vec![first.to_data(), second.to_data()];
    let both = apply_masks(Batch { inner: batch.clone() }, &masks).unwrap();
    assert_eq!(text_column(&both.inner, "entity_id"), vec!["a"]);
    let swapped = vec![second.to_data(), first.to_data()];
    let swapped = apply_masks(Batch { inner: batch.clone() }, &swapped).unwrap();
    assert_eq!(text_column(&swapped.inner, "entity_id"), vec!["a"]);
    let one = apply_masks(Batch { inner: batch.clone() }, &vec![second.to_data()]).unwrap();
    assert_eq!(text_column(&one.inner, "entity_id"), vec!["a", "c", "d"]);
    let all = apply_masks(Batch { inner: batch }, &Vec::new()).unwrap();
    assert_eq!(all.inner.num_rows(), 4);
}

#[test]
fn masks_that_do_not_fit_are_refused() {
    let batch = || Batch { inner: make_batch(&["a", "b"], &[1, 2], &["x"; 2]) };
    let mask = |list: Vec<bool>| BooleanArray::from(list).to_data();
    let e = apply_masks(batch(), &vec![mask(vec![true, true]), mask(vec![true])]).err().unwrap();
    assert!(matches!(e, BqliteError::Arrow(_)));
    let e = apply_masks(batch(), &vec![mask(vec![true, true, true])]).err().unwrap();
    assert!(matches!(e, BqliteError::Arrow(_)));
    let short = apply_masks(batch(), &vec![mask(vec![true])]).ok().unwrap();
    assert_eq!(text_column(&short.inner, "entity_id"), vec!["a"]);
}

#[test]
fn a_copied_column_keeps_its_default_value() {
    let mut column = ColumnDef::nullable("country", BqlType::String);
    assert!(column.default_value.is_none());
    assert!(ColumnDef::required("country", BqlType::String).default_value.is_none());
    column.default_value = Some(PropertyValue::String("NL".to_string()));
    let named = |c: &ColumnDef| match &c.default_value {
        Some(PropertyValue::String(s)) => s.clone(),
        _ => String::new(),
    };
    assert_eq!(named(&column.duplicate()), "NL");
    let schema = OperatorSchema::new(vec![column]).unwrap();
    assert_eq!(named(&schema.duplicate().columns()[0]), "NL");
}
