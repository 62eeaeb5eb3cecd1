//! Joining several tables into one stream of rows.

use std::collections::VecDeque;
use std::sync::Arc;

use arrow::array::{Array, ArrayRef, Int64Array, StringViewArray, TimestampNanosecondArray};
use arrow::datatypes::{DataType, Field, Schema as ArrowSchema, TimeUnit};
use arrow::record_batch::RecordBatch;

use bqlite_operators::columnar::Batch;
use bqlite_operators::error::BqliteError;
use bqlite_operators::operator::CancellationToken;
use bqlite_operators::scan::merge_sources::{MergeAction, MergeSourcesOperator};
use bqlite_operators::scan::operator::ScanOperator;
use bqlite_operators::scan::path::ScanPath;
use bqlite_operators::schema::{BqlType, ColumnDef, OperatorSchema, TableSchema};

fn merge_sources_batch(entity_ids: &[&str], tss: &[i64]) -> RecordBatch {
    assert_eq!(entity_ids.len(), tss.len());
    let arrow_schema = Arc::new(ArrowSchema::new(vec![
        Field::new("entity_id", DataType::Utf8View, false),
        Field::new("ts", DataType::Timestamp(TimeUnit::Nanosecond, Some("UTC".into())), false),
        Field::new("event_type", DataType::Utf8View, false),
        Field::new("__seq_id", DataType::Int64, false),
        Field::new("__batch_id", DataType::Int64, false),
    ]));
    let n = entity_ids.len();
    let eid: ArrayRef = Arc::new(StringViewArray::from(entity_ids.to_vec()));
    let ts: ArrayRef = Arc::new(
        TimestampNanosecondArray::from(tss.iter().copied().map(Some).collect::<Vec<_>>())
            .with_timezone("UTC"),
    );
    let et: ArrayRef =
        Arc::new(StringViewArray::from(entity_ids.iter().map(|_| "e").collect::<Vec<_>>()));
    let seq: ArrayRef = Arc::new(Int64Array::from((0..n as i64).collect::<Vec<_>>()));
    let bid: ArrayRef = Arc::new(Int64Array::from(vec![0i64; n]));
    RecordBatch::try_new(arrow_schema, vec![eid, ts, et, seq, bid]).unwrap()
}

fn merge_sources_table_schema(name: &str) -> TableSchema {
    TableSchema::new(
        name,
        vec![
            ColumnDef::required("entity_id", BqlType::String),
            ColumnDef::required("ts", BqlType::Timestamp),
            ColumnDef::required("event_type", BqlType::String),
        ],
        "entity_id",
        "ts",
        "event_type",
    )
    .unwrap()
}

/// A source: the columns of a full scan, and the batches that it returns.
struct Source {
    schema: OperatorSchema,
    batches: VecDeque<RecordBatch>,
    pulls: usize,
}

fn make_multi_batch_sub(table: &str, batches: &[(&[&str], &[i64])]) -> (Source, String, String) {
    let scan =
        ScanOperator::full_scan(&merge_sources_table_schema(table), ScanPath::Materialized).unwrap();
    let batches = batches.iter().map(|(ids, tss)| merge_sources_batch(ids, tss)).collect();
    let source = Source { schema: scan.output_schema().duplicate(), batches, pulls: 0 };
    (source, "entity_id".into(), "ts".into())
}

fn make_merge_sources_sub(
    table: &str,
    entity_ids: &[&str],
    tss: &[i64],
) -> (Source, String, String) {
    if entity_ids.is_empty() {
        make_multi_batch_sub(table, &[])
    } else {
        make_multi_batch_sub(table, &[(entity_ids, tss)])
    }
}

/// An operator together with its sources.
struct Merge {
    op: MergeSourcesOperator,
    sources: Vec<Source>,
    cancel: CancellationToken,
}

impl Merge {
    fn new(
        sources: Vec<Source>,
        entities: Vec<String>,
        times: Vec<String>,
        output: OperatorSchema,
        tables: Vec<String>,
        cancel: CancellationToken,
    ) -> Result<Self, BqliteError> {
        let schemas: Vec<OperatorSchema> = sources.iter().map(|s| s.schema.duplicate()).collect();
        let op = MergeSourcesOperator::new(&schemas, &entities, &times, output, &tables)?;
        Ok(Merge { op, sources, cancel })
    }

    fn with_batch_size(self, rows: usize) -> Self {
        Merge { op: self.op.with_batch_size(rows), sources: self.sources, cancel: self.cancel }
    }

    fn open(&mut self) -> Result<(), BqliteError> {
        let outcomes = self.sources.iter().map(|_| None).collect();
        self.op.open(&outcomes)
    }

    fn next_batch(&mut self) -> Result<Option<RecordBatch>, BqliteError> {
        if !self.op.begin(self.cancel.is_cancelled())? {
            return Ok(None);
        }
        loop {
            match self.op.step() {
                MergeAction::Pull(i) => {
                    self.sources[i].pulls += 1;
                    let batch = self.sources[i].batches.pop_front();
                    self.op.supply(i, batch.map(|inner| Batch { inner }));
                }
                MergeAction::Emit => return Ok(Some(self.op.emit()?.inner)),
                MergeAction::Done => return Ok(None),
            }
        }
    }

    fn close(&mut self) -> Result<(), BqliteError> {
        let outcomes = self.sources.iter().map(|_| None).collect();
        self.op.close(&outcomes)
    }
}

fn combined_schema_two(with_discriminator: bool) -> OperatorSchema {
    let mut cols = vec![
        ColumnDef::nullable("t0.entity_id", BqlType::String),
        ColumnDef::nullable("t0.ts", BqlType::Timestamp),
        ColumnDef::nullable("t0.event_type", BqlType::String),
        ColumnDef::nullable("t1.entity_id", BqlType::String),
        ColumnDef::nullable("t1.ts", BqlType::Timestamp),
        ColumnDef::nullable("t1.event_type", BqlType::String),
    ];
    if with_discriminator {
        cols.push(ColumnDef::required("__source_table_id", BqlType::Int));
    }
    OperatorSchema::new(cols).unwrap()
}

fn collect_source_table_ids(batches: &[RecordBatch]) -> Vec<i64> {
    batches
        .iter()
        .flat_map(|b| {
            let arr = b
                .column_by_name("__source_table_id")
                .unwrap()
                .as_any()
                .downcast_ref::<Int64Array>()
                .unwrap();
            (0..b.num_rows()).map(|i| arr.value(i)).collect::<Vec<_>>()
        })
        .collect()
}

fn two_sources(cancel: CancellationToken) -> Merge {
    let (op_a, ek_a, ts_a) = make_merge_sources_sub("t0", &["a", "c"], &[10, 30]);
    let (op_b, ek_b, ts_b) = make_merge_sources_sub("t1", &["b"], &[20]);
    Merge::new(
        vec![op_a, op_b],
        vec![ek_a, ek_b],
        vec![ts_a, ts_b],
        combined_schema_two(true),
        vec!["t0".into(), "t1".into()],
        cancel,
    )
    .unwrap()
}

#[test]
fn merge_sources_two_disjoint_entities() {
    let (op_a, ek_a, ts_a) = make_merge_sources_sub("t0", &["a"], &[100]);
    let (op_b, ek_b, ts_b) = make_merge_sources_sub("t1", &["b"], &[200]);

    let mut op = Merge::new(
        vec![op_a, op_b],
        vec![ek_a, ek_b],
        vec![ts_a, ts_b],
        combined_schema_two(true),
        vec!["t0".into(), "t1".into()],
        CancellationToken::new(),
    )
    .unwrap();

    op.open().unwrap();
    let mut rows = Vec::new();
    while let Some(b) = op.next_batch().unwrap() {
        rows.push(b);
    }
    op.close().unwrap();

    let total: usize = rows.iter().map(|b| b.num_rows()).sum();
    assert_eq!(total, 2, "expected 2 rows total");

    let tids = collect_source_table_ids(&rows);
    assert_eq!(tids, vec![0, 1]);

    let b0 = &rows[0];
    let t0_eid = b0
        .column_by_name("t0.entity_id")
        .unwrap()
        .as_any()
        .downcast_ref::<StringViewArray>()
        .unwrap();
    assert_eq!(t0_eid.value(0), "a");
    assert!(b0.column_by_name("t1.entity_id").unwrap().is_null(0));
}

#[test]
fn merge_sources_ordering_across_tables() {
    let (op_a, ek_a, ts_a) = make_merge_sources_sub("t0", &["x", "x"], &[100, 200]);
    let (op_b, ek_b, ts_b) = make_merge_sources_sub("t1", &["x", "y"], &[150, 500]);

    let mut op = Merge::new(
        vec![op_a, op_b],
        vec![ek_a, ek_b],
        vec![ts_a, ts_b],
        combined_schema_two(true),
        vec!["t0".into(), "t1".into()],
        CancellationToken::new(),
    )
    .unwrap();
    op.open().unwrap();
    let mut all = Vec::new();
    while let Some(b) = op.next_batch().unwrap() {
        all.push(b);
    }
    op.close().unwrap();

    let tids = collect_source_table_ids(&all);
    assert_eq!(tids, vec![0, 1, 0, 1]);
}

#[test]
fn merge_sources_same_ts_tiebroken_by_scan_idx() {
    let (op_a, ek_a, ts_a) = make_merge_sources_sub("t0", &["x"], &[100]);
    let (op_b, ek_b, ts_b) = make_merge_sources_sub("t1", &["x"], &[100]);

    let mut op = Merge::new(
        vec![op_a, op_b],
        vec![ek_a, ek_b],
        vec![ts_a, ts_b],
        combined_schema_two(true),
        vec!["t0".into(), "t1".into()],
        CancellationToken::new(),
    )
    .unwrap();
    op.open().unwrap();
    let batches: Vec<RecordBatch> = std::iter::from_fn(|| op.next_batch().unwrap()).collect();
    op.close().unwrap();
    let total_rows: usize = batches.iter().map(|b| b.num_rows()).sum();
    assert_eq!(total_rows, 2);
    let tids = collect_source_table_ids(&batches);
    assert_eq!(tids, vec![0, 1]);
}

#[test]
fn merge_sources_one_sub_empty() {
    let (op_a, ek_a, ts_a) = make_merge_sources_sub("t0", &["a"], &[100]);
    let (op_b, ek_b, ts_b) = make_merge_sources_sub("t1", &[] as &[&str], &[]);

    let mut op = Merge::new(
        vec![op_a, op_b],
        vec![ek_a, ek_b],
        vec![ts_a, ts_b],
        combined_schema_two(true),
        vec!["t0".into(), "t1".into()],
        CancellationToken::new(),
    )
    .unwrap();
    op.open().unwrap();
    let total: usize = std::iter::from_fn(|| op.next_batch().unwrap())
        .map(|b| b.num_rows())
        .sum();
    op.close().unwrap();
    assert_eq!(total, 1);
}

#[test]
fn merge_sources_both_empty() {
    let (op_a, ek_a, ts_a) = make_merge_sources_sub("t0", &[] as &[&str], &[]);
    let (op_b, ek_b, ts_b) = make_merge_sources_sub("t1", &[] as &[&str], &[]);
    let mut op = Merge::new(
        vec![op_a, op_b],
        vec![ek_a, ek_b],
        vec![ts_a, ts_b],
        combined_schema_two(true),
        vec!["t0".into(), "t1".into()],
        CancellationToken::new(),
    )
    .unwrap();
    op.open().unwrap();
    assert!(op.next_batch().unwrap().is_none());
    op.close().unwrap();
}

#[test]
fn merge_sources_three_tables_ordering() {
    let (op_a, ek_a, ts_a) = make_merge_sources_sub("t0", &["x"], &[100]);
    let (op_b, ek_b, ts_b) = make_merge_sources_sub("t1", &["x"], &[50]);
    let (op_c, ek_c, ts_c) = make_merge_sources_sub("t2", &["x"], &[75]);
    let combined = OperatorSchema::new(vec![
        ColumnDef::nullable("t0.entity_id", BqlType::String),
        ColumnDef::nullable("t0.ts", BqlType::Timestamp),
        ColumnDef::nullable("t0.event_type", BqlType::String),
        ColumnDef::nullable("t1.entity_id", BqlType::String),
        ColumnDef::nullable("t1.ts", BqlType::Timestamp),
        ColumnDef::nullable("t1.event_type", BqlType::String),
        ColumnDef::nullable("t2.entity_id", BqlType::String),
        ColumnDef::nullable("t2.ts", BqlType::Timestamp),
        ColumnDef::nullable("t2.event_type", BqlType::String),
        ColumnDef::required("__source_table_id", BqlType::Int),
    ])
    .unwrap();
    let mut op = Merge::new(
        vec![op_a, op_b, op_c],
        vec![ek_a, ek_b, ek_c],
        vec![ts_a, ts_b, ts_c],
        combined,
        vec!["t0".into(), "t1".into(), "t2".into()],
        CancellationToken::new(),
    )
    .unwrap();
    op.open().unwrap();
    let batches: Vec<RecordBatch> = std::iter::from_fn(|| op.next_batch().unwrap()).collect();
    op.close().unwrap();
    let total: usize = batches.iter().map(|b| b.num_rows()).sum();
    assert_eq!(total, 3);
    let tids = collect_source_table_ids(&batches);
    assert_eq!(tids, vec![1, 2, 0]);
}

#[test]
fn merge_sources_without_source_table_id_column() {
    let (op_a, ek_a, ts_a) = make_merge_sources_sub("t0", &["a"], &[1]);
    let (op_b, ek_b, ts_b) = make_merge_sources_sub("t1", &["a"], &[2]);
    let mut op = Merge::new(
        vec![op_a, op_b],
        vec![ek_a, ek_b],
        vec![ts_a, ts_b],
        combined_schema_two(false),
        vec!["t0".into(), "t1".into()],
        CancellationToken::new(),
    )
    .unwrap();
    op.open().unwrap();
    let batches: Vec<RecordBatch> = std::iter::from_fn(|| op.next_batch().unwrap()).collect();
    op.close().unwrap();
    let total: usize = batches.iter().map(|b| b.num_rows()).sum();
    assert_eq!(total, 2);
    assert!(batches[0].column_by_name("__source_table_id").is_none());
}

#[test]
fn merge_sources_ctor_rejects_parallel_vec_mismatch() {
    let (op_a, ek_a, ts_a) = make_merge_sources_sub("t0", &["a"], &[100]);
    let err = Merge::new(
        vec![op_a],
        vec![ek_a, "entity_id".into()],
        vec![ts_a],
        combined_schema_two(true),
        vec!["t0".into()],
        CancellationToken::new(),
    )
    .err().expect("expected parallel-vec mismatch error");
    let s = err.message();
    assert!(s.contains("parallel-vec length mismatch"), "got: {s}");
}

#[test]
fn merge_sources_ctor_rejects_missing_entity_key_column() {
    let (op_a, _ek_a, ts_a) = make_merge_sources_sub("t0", &["a"], &[100]);
    let combined = OperatorSchema::new(vec![
        ColumnDef::nullable("t0.entity_id", BqlType::String),
        ColumnDef::nullable("t0.ts", BqlType::Timestamp),
        ColumnDef::nullable("t0.event_type", BqlType::String),
        ColumnDef::required("__source_table_id", BqlType::Int),
    ])
    .unwrap();
    let err = Merge::new(
        vec![op_a],
        vec!["no_such_column".into()],
        vec![ts_a],
        combined,
        vec!["t0".into()],
        CancellationToken::new(),
    )
    .err().expect("expected missing-column error");
    let s = err.message();
    assert!(s.contains("missing entity-key column"), "got: {s}");
}

#[test]
fn merge_sources_ctor_rejects_empty_sub_ops() {
    let err = Merge::new(
        vec![],
        vec![],
        vec![],
        combined_schema_two(true),
        vec![],
        CancellationToken::new(),
    )
    .err().expect("expected empty sub-ops error");
    let s = err.message();
    assert!(s.contains("at least one sub-scan is required"), "got: {s}");
}

#[test]
fn merge_sources_multi_batch_per_sub_scan() {
    let (op_a, ek_a, ts_a) =
        make_multi_batch_sub("t0", &[(&["a", "b"], &[10, 20]), (&["c", "d"], &[30, 40])]);
    let (op_b, ek_b, ts_b) = make_merge_sources_sub("t1", &["b", "c"], &[15, 35]);

    let mut op = Merge::new(
        vec![op_a, op_b],
        vec![ek_a, ek_b],
        vec![ts_a, ts_b],
        combined_schema_two(true),
        vec!["t0".into(), "t1".into()],
        CancellationToken::new(),
    )
    .unwrap()
    .with_batch_size(2);

    op.open().unwrap();
    let batches: Vec<RecordBatch> = std::iter::from_fn(|| op.next_batch().unwrap()).collect();
    op.close().unwrap();
    let total: usize = batches.iter().map(|b| b.num_rows()).sum();
    assert_eq!(total, 6);
    let tids = collect_source_table_ids(&batches);
    assert_eq!(tids, vec![0, 1, 0, 0, 1, 0]);
}

#[test]
fn merge_sources_small_batch_size_splits_output() {
    let (op_a, ek_a, ts_a) = make_merge_sources_sub("t0", &["a", "b"], &[10, 30]);
    let (op_b, ek_b, ts_b) = make_merge_sources_sub("t1", &["a", "b"], &[20, 40]);
    let mut op = Merge::new(
        vec![op_a, op_b],
        vec![ek_a, ek_b],
        vec![ts_a, ts_b],
        combined_schema_two(true),
        vec!["t0".into(), "t1".into()],
        CancellationToken::new(),
    )
    .unwrap()
    .with_batch_size(1);

    op.open().unwrap();
    let batches: Vec<RecordBatch> = std::iter::from_fn(|| op.next_batch().unwrap()).collect();
    op.close().unwrap();
    assert_eq!(batches.len(), 4);
    assert!(batches.iter().all(|b| b.num_rows() == 1));
    let tids = collect_source_table_ids(&batches);
    assert_eq!(tids, vec![0, 1, 0, 1]);
}

#[test]
fn every_column_of_a_row_comes_from_its_source() {
    let mut op = two_sources(CancellationToken::new());
    op.open().unwrap();
    let b = op.next_batch().unwrap().unwrap();
    let names: Vec<String> = b.schema().fields().iter().map(|f| f.name().clone()).collect();
    assert_eq!(
        names,
        vec![
            "t0.entity_id",
            "t0.ts",
            "t0.event_type",
            "t1.entity_id",
            "t1.ts",
            "t1.event_type",
            "__source_table_id"
        ]
    );
    assert_eq!(b.num_rows(), 3);
    let ids = |name: &str| -> Vec<Option<String>> {
        let column = b.column_by_name(name).unwrap();
        let column = column.as_any().downcast_ref::<StringViewArray>().unwrap();
        column.iter().map(|v| v.map(|s| s.to_string())).collect()
    };
    assert_eq!(ids("t0.entity_id"), vec![Some("a".to_string()), None, Some("c".to_string())]);
    assert_eq!(ids("t1.entity_id"), vec![None, Some("b".to_string()), None]);
    let times = b.column_by_name("t0.ts").unwrap();
    let times = times.as_any().downcast_ref::<TimestampNanosecondArray>().unwrap();
    assert_eq!(times.value(0), 10);
    assert!(times.is_null(1));
    assert_eq!(times.value(2), 30);
}

#[test]
fn a_batch_without_rows_is_pulled_past() {
    let (op_a, ek_a, ts_a) =
        make_multi_batch_sub("t0", &[(&[], &[]), (&["a"], &[1]), (&[], &[]), (&["b"], &[2])]);
    let (op_b, ek_b, ts_b) = make_merge_sources_sub("t1", &[], &[]);
    let mut op = Merge::new(
        vec![op_a, op_b],
        vec![ek_a, ek_b],
        vec![ts_a, ts_b],
        combined_schema_two(true),
        vec!["t0".into(), "t1".into()],
        CancellationToken::new(),
    )
    .unwrap();
    op.open().unwrap();
    let mut batches = Vec::new();
    while let Some(b) = op.next_batch().unwrap() {
        batches.push(b);
    }
    assert_eq!(batches.iter().map(|b| b.num_rows()).sum::<usize>(), 2);
    assert_eq!(op.sources[0].pulls, 5);
    assert_eq!(op.sources[1].pulls, 1);
}

#[test]
fn integer_entities_are_ordered_by_value() {
    let columns = |table: &str| {
        let scan = ScanOperator::full_scan(
            &TableSchema::new(
                table,
                vec![
                    ColumnDef::required("id", BqlType::Int),
                    ColumnDef::required("ts", BqlType::Timestamp),
                    ColumnDef::required("event_type", BqlType::String),
                ],
                "id",
                "ts",
                "event_type",
            )
            .unwrap(),
            ScanPath::Materialized,
        )
        .unwrap();
        scan.output_schema().duplicate()
    };
    let batch = |ids: Vec<i64>| {
        let n = ids.len();
        let schema = ArrowSchema::new(vec![
            Field::new("id", DataType::Int64, false),
            Field::new("ts", DataType::Timestamp(TimeUnit::Nanosecond, Some("UTC".into())), false),
            Field::new("event_type", DataType::Utf8View, false),
        ]);
        let times = TimestampNanosecondArray::from(vec![1i64; n]).with_timezone("UTC");
        RecordBatch::try_new(
            Arc::new(schema),
            vec![
                Arc::new(Int64Array::from(ids)),
                Arc::new(times),
                Arc::new(StringViewArray::from(vec!["e"; n])),
            ],
        )
        .unwrap()
    };
    let a = Source { schema: columns("t0"), batches: VecDeque::from([batch(vec![-3, 10])]), pulls: 0 };
    let b = Source { schema: columns("t1"), batches: VecDeque::from([batch(vec![2, 9])]), pulls: 0 };
    let output = OperatorSchema::new(vec![
        ColumnDef::nullable("t0.id", BqlType::Int),
        ColumnDef::nullable("t1.id", BqlType::Int),
        ColumnDef::required("__source_table_id", BqlType::Int),
    ])
    .unwrap();
    let mut op = Merge::new(
        vec![a, b],
        vec!["id".into(), "id".into()],
        vec!["ts".into(), "ts".into()],
        output,
        vec!["t0".into(), "t1".into()],
        CancellationToken::new(),
    )
    .unwrap();
    op.open().unwrap();
    let out = op.next_batch().unwrap().unwrap();
    assert_eq!(collect_source_table_ids(&[out]), vec![0, 1, 1, 0]);
}

#[test]
fn a_batch_before_open_is_refused() {
    let mut op = two_sources(CancellationToken::new());
    let e = op.next_batch().err().unwrap();
    assert_eq!(e.message(), "MergeSourcesOperator::next_batch called before open");
}

#[test]
fn a_cancelled_merge_fails() {
    let cancel = CancellationToken::new();
    let mut op = two_sources(cancel.clone());
    op.open().unwrap();
    cancel.cancel();
    assert!(matches!(op.next_batch(), Err(BqliteError::Cancelled)));
}

#[test]
fn a_merge_at_its_end_stays_there() {
    let cancel = CancellationToken::new();
    let mut op = two_sources(cancel.clone());
    op.open().unwrap();
    while op.next_batch().unwrap().is_some() {}
    cancel.cancel();
    assert!(op.next_batch().unwrap().is_none());
    assert!(op.next_batch().unwrap().is_none());
}

#[test]
fn a_closed_merge_has_no_rows() {
    let mut op = two_sources(CancellationToken::new());
    op.open().unwrap();
    op.close().unwrap();
    op.close().unwrap();
    assert!(op.next_batch().unwrap().is_none());
}

#[test]
fn the_first_failing_source_is_named() {
    let mut op = two_sources(CancellationToken::new()).op;
    let outcomes = vec![None, Some(BqliteError::Io("disk".into()))];
    let e = op.open(&outcomes).err().unwrap();
    assert_eq!(e.message(), "MergeSourcesOperator: sub-scan 1 open failed: disk");
    assert!(op.begin(false).is_err());
    op.open(&vec![None, None]).unwrap();
    let e = op.close(&vec![Some(BqliteError::Io("a".into())), Some(BqliteError::Io("b".into()))]);
    assert_eq!(e.err().unwrap().message(), "MergeSourcesOperator: sub-scan 0 close failed: a");
    assert!(!op.begin(false).unwrap());
}

#[test]
fn a_missing_time_column_is_refused() {
    let (op_a, ek_a, _) = make_merge_sources_sub("t0", &["a"], &[100]);
    let e = Merge::new(
        vec![op_a],
        vec![ek_a],
        vec!["when".into()],
        combined_schema_two(true),
        vec!["t0".into()],
        CancellationToken::new(),
    )
    .err()
    .unwrap();
    assert!(e.message().contains("missing ts column `when`"), "{}", e.message());
}

#[test]
fn a_source_id_that_is_no_integer_is_refused() {
    let (op_a, ek_a, ts_a) = make_merge_sources_sub("t0", &["a"], &[100]);
    let output = OperatorSchema::new(vec![
        ColumnDef::nullable("t0.entity_id", BqlType::String),
        ColumnDef::required("__source_table_id", BqlType::String),
    ])
    .unwrap();
    let e = Merge::new(
        vec![op_a],
        vec![ek_a],
        vec![ts_a],
        output,
        vec!["t0".into()],
        CancellationToken::new(),
    )
    .err()
    .unwrap();
    assert!(e.message().contains("__source_table_id"), "{}", e.message());
}

#[test]
fn an_entity_that_cannot_be_ordered_is_refused() {
    let (op_a, _, ts_a) = make_merge_sources_sub("t0", &["a"], &[100]);
    let e = Merge::new(
        vec![op_a],
        vec!["ts".into()],
        vec![ts_a],
        combined_schema_two(true),
        vec!["t0".into()],
        CancellationToken::new(),
    )
    .err()
    .unwrap();
    assert!(e.message().contains("key-type validation failed"), "{}", e.message());
}

#[test]
fn a_column_of_another_type_is_refused() {
    let (op_a, ek_a, ts_a) = make_merge_sources_sub("t0", &["a"], &[100]);
    let output = OperatorSchema::new(vec![
        ColumnDef::nullable("t0.event_type", BqlType::Int),
        ColumnDef::required("__source_table_id", BqlType::Int),
    ])
    .unwrap();
    let mut op = Merge::new(
        vec![op_a],
        vec![ek_a],
        vec![ts_a],
        output,
        vec!["t0".into()],
        CancellationToken::new(),
    )
    .unwrap();
    op.open().unwrap();
    let text = op.next_batch().err().unwrap().message().to_string();
    assert!(text.starts_with("MergeSourcesOperator: failed to assemble output batch: "), "{text}");
}

#[test]
fn columns_of_more_than_one_type_are_refused() {
    let (op_a, ek_a, ts_a) = make_merge_sources_sub("t0", &["a"], &[100]);
    let (op_b, ek_b, ts_b) = make_merge_sources_sub("t1", &["b"], &[200]);
    let output = OperatorSchema::new(vec![
        ColumnDef::nullable("t1.event_type", BqlType::String),
        ColumnDef::nullable("t0.event_type", BqlType::Int),
    ])
    .unwrap();
    let mut op = Merge::new(
        vec![op_a, op_b],
        vec![ek_a, ek_b],
        vec![ts_a, ts_b],
        output,
        vec!["t0".into(), "t1".into()],
        CancellationToken::new(),
    )
    .unwrap();
    op.open().unwrap();
    let text = op.next_batch().err().unwrap().message().to_string();
    let begin = "MergeSourcesOperator: interleave failed for output col 1 (t0.event_type): ";
    assert!(text.starts_with(begin), "{text}");
}

/// Everything that a merge of batches at hand returns.
fn drained(mut merge: Merge) -> Result<Vec<RecordBatch>, BqliteError> {
    let lists = merge
        .sources
        .into_iter()
        .map(|s| s.batches.into_iter().map(|inner| Batch { inner }).collect())
        .collect();
    let out = merge.op.drain(lists)?;
    assert!(merge.op.exhausted);
    Ok(out.into_iter().map(|b| b.inner).collect())
}

#[test]
fn draining_returns_what_pulling_returns() {
    let merge = |rows: usize| {
        let (op_a, ek_a, ts_a) = make_multi_batch_sub(
            "t0",
            &[(&["a", "a"], &[10, 30]), (&[], &[]), (&["b"], &[5]), (&["c"], &[1])],
        );
        let (op_b, ek_b, ts_b) =
            make_multi_batch_sub("t1", &[(&["a"], &[20]), (&["b", "c"], &[5, 0])]);
        Merge::new(
            vec![op_a, op_b],
            vec![ek_a, ek_b],
            vec![ts_a, ts_b],
            combined_schema_two(true),
            vec!["t0".into(), "t1".into()],
            CancellationToken::new(),
        )
        .unwrap()
        .with_batch_size(rows)
    };
    for rows in [1, 2, 100] {
        let mut pulled = merge(rows);
        pulled.open().unwrap();
        let one_by_one: Vec<RecordBatch> =
            std::iter::from_fn(|| pulled.next_batch().unwrap()).collect();
        let at_once = drained(merge(rows)).unwrap();
        assert_eq!(at_once, one_by_one);
        assert_eq!(collect_source_table_ids(&at_once), vec![0, 1, 0, 0, 1, 1, 0]);
        assert!(at_once.iter().all(|b| 0 < b.num_rows() && b.num_rows() <= rows));
    }
}

#[test]
fn nothing_drained_is_nothing() {
    let (op_a, ek_a, ts_a) = make_merge_sources_sub("t0", &[], &[]);
    let merge = Merge::new(
        vec![op_a],
        vec![ek_a],
        vec![ts_a],
        combined_schema_two(true),
        vec!["t0".into()],
        CancellationToken::new(),
    )
    .unwrap();
    assert_eq!(drained(merge).unwrap().len(), 0);
}

#[test]
fn draining_a_batch_that_the_result_cannot_show_fails() {
    let (op_a, ek_a, ts_a) = make_merge_sources_sub("t0", &["a"], &[100]);
    let output =
        OperatorSchema::new(vec![ColumnDef::nullable("t0.event_type", BqlType::Int)]).unwrap();
    let merge = Merge::new(
        vec![op_a],
        vec![ek_a],
        vec![ts_a],
        output,
        vec!["t0".into()],
        CancellationToken::new(),
    )
    .unwrap();
    assert!(matches!(drained(merge).err().unwrap(), BqliteError::Execution(_)));
}

#[test]
fn a_null_in_a_required_column_is_refused() {
    let (op_a, ek_a, ts_a) = make_merge_sources_sub("t0", &["a"], &[100]);
    let (op_b, ek_b, ts_b) = make_merge_sources_sub("t1", &["b"], &[200]);
    let output = OperatorSchema::new(vec![
        ColumnDef::required("t0.entity_id", BqlType::String),
        ColumnDef::required("__source_table_id", BqlType::Int),
    ])
    .unwrap();
    let mut op = Merge::new(
        vec![op_a, op_b],
        vec![ek_a, ek_b],
        vec![ts_a, ts_b],
        output,
        vec!["t0".into(), "t1".into()],
        CancellationToken::new(),
    )
    .unwrap();
    op.open().unwrap();
    assert!(op.next_batch().is_err());
}

#[test]
fn a_batch_without_its_columns_cannot_be_taken() {
    let op = two_sources(CancellationToken::new()).op;
    let whole = merge_sources_batch(&["a"], &[1]);
    assert!(op.can_take(0, &Batch { inner: whole.clone() }));
    assert!(!op.can_take(0, &Batch { inner: whole.project(&[0, 1]).unwrap() }));
    assert!(!op.can_take(1, &Batch { inner: whole.project(&[0, 2, 1]).unwrap() }));
    let empty = merge_sources_batch(&[], &[]).project(&[0]).unwrap();
    assert!(op.can_take(1, &Batch { inner: empty }));
}
