//! Sessions of events.

use std::sync::Arc;

use arrow::array::{
    Array, ArrayRef, BinaryArray, Date64Array, DictionaryArray, Int16Array, Int32Array, Int64Array,
    Int8Array, LargeStringArray, ListArray, NullArray, StringViewArray, TimestampNanosecondArray,
};
use arrow::buffer::{Buffer, OffsetBuffer};
use arrow::datatypes::{DataType, Field, Int32Type, Int64Type, Int8Type, Schema, TimeUnit};
use arrow::record_batch::RecordBatch;

use bqlite_operators::columnar::Batch;
use bqlite_operators::error::{BqliteError, QueryWarning};
use bqlite_operators::operator::{Accumulator, DemandCapabilities, EntityOperator};
use bqlite_operators::schema::{BqlType, ColumnDef, OperatorSchema};
use bqlite_operators::sessionize::{SessionizeOperator, SessionizePhysical};
use bqlite_operators::value::EntityId;

fn entity(name: &str) -> EntityId {
    EntityId::String(name.to_string())
}

fn events_schema_no_amount() -> OperatorSchema {
    OperatorSchema::new(vec![
        ColumnDef::required("entity_id", BqlType::String),
        ColumnDef::required("ts", BqlType::Timestamp),
        ColumnDef::required("event_type", BqlType::String),
    ])
    .unwrap()
}

fn events_schema_with_amount() -> OperatorSchema {
    OperatorSchema::new(vec![
        ColumnDef::required("entity_id", BqlType::String),
        ColumnDef::required("ts", BqlType::Timestamp),
        ColumnDef::required("event_type", BqlType::String),
        ColumnDef::nullable("amount", BqlType::Int),
    ])
    .unwrap()
}

fn sess_output_schema(base: &OperatorSchema) -> OperatorSchema {
    let mut cols: Vec<ColumnDef> = base.columns().iter().map(|c| c.duplicate()).collect();
    cols.push(ColumnDef::required("session_id", BqlType::Int));
    cols.push(ColumnDef::required("session_duration", BqlType::Int));
    OperatorSchema::new(cols).unwrap()
}

fn build_physical(
    input_schema: OperatorSchema,
    gap_ns: i64,
    end_events: Vec<String>,
    forwarded_columns: Vec<String>,
) -> SessionizePhysical {
    let output_schema = sess_output_schema(&input_schema);
    SessionizePhysical {
        gap_ns,
        end_events,
        forwarded_columns,
        input_schema,
        output_schema,
        fused_aggregate: false,
    }
}

fn make_batch(
    input_schema: &Schema,
    entity: &str,
    ts: Vec<i64>,
    event_type: Vec<&str>,
    amount: Option<Vec<Option<i64>>>,
) -> Batch {
    let num = ts.len();
    let mut cols: Vec<ArrayRef> = vec![
        Arc::new(StringViewArray::from(vec![entity; num])),
        Arc::new(TimestampNanosecondArray::from(ts).with_timezone("UTC")),
        Arc::new(StringViewArray::from(event_type)),
    ];
    if let Some(a) = amount {
        cols.push(Arc::new(Int64Array::from(a)));
    }
    Batch { inner: RecordBatch::try_new(Arc::new(input_schema.clone()), cols).unwrap() }
}

fn arrow_type(t: BqlType) -> DataType {
    match t {
        BqlType::String => DataType::Utf8View,
        BqlType::Int => DataType::Int64,
        BqlType::Float => DataType::Float64,
        BqlType::Bool => DataType::Boolean,
        BqlType::Timestamp => DataType::Timestamp(TimeUnit::Nanosecond, Some("UTC".into())),
    }
}

fn input_arrow(schema: &OperatorSchema) -> Schema {
    let fields: Vec<Field> = schema
        .columns()
        .iter()
        .map(|c| Field::new(&c.name, arrow_type(c.bql_type), c.nullable))
        .collect();
    Schema::new(fields)
}

fn read_session_columns(out: &Batch) -> (Vec<i64>, Vec<i64>) {
    let read = |name: &str| -> Vec<i64> {
        let column = out.inner.column_by_name(name).unwrap();
        column.as_any().downcast_ref::<Int64Array>().unwrap().values().to_vec()
    };
    (read("session_id"), read("session_duration"))
}

fn read_ts(out: &Batch) -> Vec<i64> {
    let column = out.inner.column_by_name("ts").unwrap();
    column.as_any().downcast_ref::<TimestampNanosecondArray>().unwrap().values().to_vec()
}

fn read_types(out: &Batch) -> Vec<String> {
    let column = out.inner.column_by_name("event_type").unwrap();
    let texts: &StringViewArray = column.as_any().downcast_ref().unwrap();
    texts.iter().map(|t| t.unwrap().to_string()).collect()
}

#[test]
fn empty_entity_produces_no_output() {
    let schema = events_schema_no_amount();
    let phys = build_physical(schema, 1_000, vec![], vec![]);
    let op = SessionizeOperator::new(&phys);
    let state = op.create_state(&entity("e1"));
    assert!(op.finish_entity(state).is_none());
}

#[test]
fn single_event_is_single_session_with_duration_zero() {
    let schema = events_schema_no_amount();
    let phys = build_physical(schema.duplicate(), 1_000, vec![], vec![]);
    let op = SessionizeOperator::new(&phys);
    let arrow_schema = input_arrow(&schema);

    let mut state = op.create_state(&entity("e1"));
    let batch = make_batch(&arrow_schema, "e1", vec![100], vec!["click"], None);
    op.process_sub_batch(&mut state, &batch);
    let out = op.finish_entity(state).expect("one row");
    let (sids, sdurs) = read_session_columns(&out);
    assert_eq!(sids, vec![1]);
    assert_eq!(sdurs, vec![0]);
    assert_eq!(out.inner.num_rows(), 1);
}

#[test]
fn all_within_gap_becomes_one_session() {
    let schema = events_schema_no_amount();
    let phys = build_physical(schema.duplicate(), 100, vec![], vec![]);
    let op = SessionizeOperator::new(&phys);
    let arrow_schema = input_arrow(&schema);

    let mut state = op.create_state(&entity("e1"));
    let batch = make_batch(
        &arrow_schema,
        "e1",
        vec![0, 50, 100, 150],
        vec!["a", "b", "c", "d"],
        None,
    );
    op.process_sub_batch(&mut state, &batch);
    let out = op.finish_entity(state).unwrap();
    let (sids, sdurs) = read_session_columns(&out);
    assert_eq!(sids, vec![1, 1, 1, 1]);
    assert_eq!(sdurs, vec![150, 150, 150, 150]);
}

#[test]
fn delta_equal_to_gap_stays_same_session() {
    let schema = events_schema_no_amount();
    let phys = build_physical(schema.duplicate(), 100, vec![], vec![]);
    let op = SessionizeOperator::new(&phys);
    let arrow_schema = input_arrow(&schema);

    let mut state = op.create_state(&entity("e1"));
    let batch = make_batch(
        &arrow_schema,
        "e1",
        vec![0, 100, 200],
        vec!["a", "b", "c"],
        None,
    );
    op.process_sub_batch(&mut state, &batch);
    let out = op.finish_entity(state).unwrap();
    let (sids, _) = read_session_columns(&out);
    assert_eq!(sids, vec![1, 1, 1]);
}

#[test]
fn delta_one_ns_over_gap_starts_new_session() {
    let schema = events_schema_no_amount();
    let phys = build_physical(schema.duplicate(), 100, vec![], vec![]);
    let op = SessionizeOperator::new(&phys);
    let arrow_schema = input_arrow(&schema);

    let mut state = op.create_state(&entity("e1"));
    let batch = make_batch(&arrow_schema, "e1", vec![0, 101], vec!["a", "b"], None);
    op.process_sub_batch(&mut state, &batch);
    let out = op.finish_entity(state).unwrap();
    let (sids, sdurs) = read_session_columns(&out);
    assert_eq!(sids, vec![1, 2]);
    assert_eq!(sdurs, vec![0, 0]);
}

#[test]
fn all_events_separated_produces_singleton_sessions() {
    let schema = events_schema_no_amount();
    let phys = build_physical(schema.duplicate(), 10, vec![], vec![]);
    let op = SessionizeOperator::new(&phys);
    let arrow_schema = input_arrow(&schema);
    let mut state = op.create_state(&entity("e1"));
    let batch = make_batch(
        &arrow_schema,
        "e1",
        vec![0, 100, 200, 300],
        vec!["a", "b", "c", "d"],
        None,
    );
    op.process_sub_batch(&mut state, &batch);
    let out = op.finish_entity(state).unwrap();
    let (sids, sdurs) = read_session_columns(&out);
    assert_eq!(sids, vec![1, 2, 3, 4]);
    assert_eq!(sdurs, vec![0, 0, 0, 0]);
}

#[test]
fn end_event_belongs_to_closed_session() {
    let schema = events_schema_no_amount();
    let phys = build_physical(
        schema.duplicate(),
        1_000_000_000,
        vec!["logout".into()],
        vec![],
    );
    let op = SessionizeOperator::new(&phys);
    let arrow_schema = input_arrow(&schema);
    let mut state = op.create_state(&entity("e1"));
    let batch = make_batch(
        &arrow_schema,
        "e1",
        vec![0, 5, 10, 15],
        vec!["search", "logout", "login", "click"],
        None,
    );
    op.process_sub_batch(&mut state, &batch);
    let out = op.finish_entity(state).unwrap();
    let (sids, sdurs) = read_session_columns(&out);
    assert_eq!(sids, vec![1, 1, 2, 2]);
    assert_eq!(sdurs, vec![5, 5, 5, 5]);
}

#[test]
fn end_event_as_first_event_of_entity_is_singleton_session() {
    let schema = events_schema_no_amount();
    let phys = build_physical(schema.duplicate(), 1_000, vec!["logout".into()], vec![]);
    let op = SessionizeOperator::new(&phys);
    let arrow_schema = input_arrow(&schema);
    let mut state = op.create_state(&entity("e1"));
    let batch = make_batch(
        &arrow_schema,
        "e1",
        vec![0, 10, 20],
        vec!["logout", "click", "click"],
        None,
    );
    op.process_sub_batch(&mut state, &batch);
    let out = op.finish_entity(state).unwrap();
    let (sids, _) = read_session_columns(&out);
    assert_eq!(sids, vec![1, 2, 2]);
}

#[test]
fn end_event_as_last_event_closes_session_cleanly() {
    let schema = events_schema_no_amount();
    let phys = build_physical(schema.duplicate(), 1_000, vec!["logout".into()], vec![]);
    let op = SessionizeOperator::new(&phys);
    let arrow_schema = input_arrow(&schema);
    let mut state = op.create_state(&entity("e1"));
    let batch = make_batch(
        &arrow_schema,
        "e1",
        vec![0, 10, 20],
        vec!["click", "click", "logout"],
        None,
    );
    op.process_sub_batch(&mut state, &batch);
    let out = op.finish_entity(state).unwrap();
    let (sids, sdurs) = read_session_columns(&out);
    assert_eq!(sids, vec![1, 1, 1]);
    assert_eq!(sdurs, vec![20, 20, 20]);
}

#[test]
fn gap_and_end_event_on_same_row_gap_closes_first() {
    let schema = events_schema_no_amount();
    let phys = build_physical(schema.duplicate(), 10, vec!["logout".into()], vec![]);
    let op = SessionizeOperator::new(&phys);
    let arrow_schema = input_arrow(&schema);
    let mut state = op.create_state(&entity("e1"));
    let batch = make_batch(
        &arrow_schema,
        "e1",
        vec![0, 5, 100],
        vec!["click", "click", "logout"],
        None,
    );
    op.process_sub_batch(&mut state, &batch);
    let out = op.finish_entity(state).unwrap();
    let (sids, sdurs) = read_session_columns(&out);
    assert_eq!(sids, vec![1, 1, 2]);
    assert_eq!(sdurs, vec![5, 5, 0]);
}

#[test]
fn multiple_end_events_in_list_all_close() {
    let schema = events_schema_no_amount();
    let phys = build_physical(
        schema.duplicate(),
        1_000_000_000,
        vec!["logout".into(), "timeout".into()],
        vec![],
    );
    let op = SessionizeOperator::new(&phys);
    let arrow_schema = input_arrow(&schema);
    let mut state = op.create_state(&entity("e1"));
    let batch = make_batch(
        &arrow_schema,
        "e1",
        vec![0, 1, 2, 3],
        vec!["a", "timeout", "b", "logout"],
        None,
    );
    op.process_sub_batch(&mut state, &batch);
    let out = op.finish_entity(state).unwrap();
    let (sids, _) = read_session_columns(&out);
    assert_eq!(sids, vec![1, 1, 2, 2]);
}

#[test]
fn dictionary_event_type_resolves_end_events_via_codes() {
    let schema = events_schema_no_amount();
    let phys = build_physical(schema.duplicate(), 1_000_000_000, vec!["logout".into()], vec![]);
    let op = SessionizeOperator::new(&phys);

    let values = Arc::new(StringViewArray::from(vec!["click", "logout", "other"]));
    let keys = Int32Array::from(vec![0, 0, 1, 2]);
    let dict = DictionaryArray::<Int32Type>::try_new(keys, values).unwrap();

    let fields = vec![
        Field::new("entity_id", DataType::Utf8View, false),
        Field::new(
            "ts",
            DataType::Timestamp(TimeUnit::Nanosecond, Some("UTC".into())),
            false,
        ),
        Field::new(
            "event_type",
            DataType::Dictionary(Box::new(DataType::Int32), Box::new(DataType::Utf8View)),
            false,
        ),
    ];
    let arrow_schema = Arc::new(Schema::new(fields));
    let cols: Vec<ArrayRef> = vec![
        Arc::new(StringViewArray::from(vec!["e1"; 4])),
        Arc::new(TimestampNanosecondArray::from(vec![0, 5, 10, 15]).with_timezone("UTC")),
        Arc::new(dict),
    ];
    let batch = Batch { inner: RecordBatch::try_new(arrow_schema, cols).unwrap() };

    let mut state = op.create_state(&entity("e1"));
    op.process_sub_batch(&mut state, &batch);
    let out = op.finish_entity(state).unwrap();
    let (sids, _) = read_session_columns(&out);
    assert_eq!(sids, vec![1, 1, 1, 2]);
}

#[test]
fn entity_state_resets_to_session_one() {
    let schema = events_schema_no_amount();
    let phys = build_physical(schema.duplicate(), 5, vec![], vec![]);
    let op = SessionizeOperator::new(&phys);
    let arrow_schema = input_arrow(&schema);

    let mut s1 = op.create_state(&entity("e1"));
    op.process_sub_batch(
        &mut s1,
        &make_batch(&arrow_schema, "e1", vec![0, 100], vec!["a", "b"], None),
    );
    let out1 = op.finish_entity(s1).unwrap();
    let (sids1, _) = read_session_columns(&out1);
    assert_eq!(sids1, vec![1, 2]);

    let mut s2 = op.create_state(&entity("e2"));
    op.process_sub_batch(
        &mut s2,
        &make_batch(&arrow_schema, "e2", vec![0, 1], vec!["a", "b"], None),
    );
    let out2 = op.finish_entity(s2).unwrap();
    let (sids2, _) = read_session_columns(&out2);
    assert_eq!(sids2, vec![1, 1]);
}

#[test]
fn session_spans_multiple_sub_batches() {
    let schema = events_schema_no_amount();
    let phys = build_physical(schema.duplicate(), 100, vec![], vec![]);
    let op = SessionizeOperator::new(&phys);
    let arrow_schema = input_arrow(&schema);

    let mut state = op.create_state(&entity("e1"));
    op.process_sub_batch(
        &mut state,
        &make_batch(
            &arrow_schema,
            "e1",
            vec![0, 50, 100],
            vec!["a", "b", "c"],
            None,
        ),
    );
    op.process_sub_batch(
        &mut state,
        &make_batch(&arrow_schema, "e1", vec![150, 200], vec!["d", "e"], None),
    );
    let out = op.finish_entity(state).unwrap();
    let (sids, sdurs) = read_session_columns(&out);
    assert_eq!(sids, vec![1, 1, 1, 1, 1]);
    assert_eq!(sdurs, vec![200; 5]);
    assert_eq!(read_ts(&out), vec![0, 50, 100, 150, 200]);
}

#[test]
fn session_boundary_across_sub_batches() {
    let schema = events_schema_no_amount();
    let phys = build_physical(schema.duplicate(), 10, vec![], vec![]);
    let op = SessionizeOperator::new(&phys);
    let arrow_schema = input_arrow(&schema);

    let mut state = op.create_state(&entity("e1"));
    op.process_sub_batch(
        &mut state,
        &make_batch(&arrow_schema, "e1", vec![0, 5], vec!["a", "b"], None),
    );
    op.process_sub_batch(
        &mut state,
        &make_batch(&arrow_schema, "e1", vec![105, 110], vec!["c", "d"], None),
    );
    let out = op.finish_entity(state).unwrap();
    let (sids, _) = read_session_columns(&out);
    assert_eq!(sids, vec![1, 1, 2, 2]);
}

#[test]
fn per_entity_event_cap_flushes_partial_and_skips_rest() {
    let schema = events_schema_no_amount();
    let phys = build_physical(schema.duplicate(), 1_000_000, vec![], vec![]);
    let mut op = SessionizeOperator::new(&phys);
    op.session_event_cap = 3;
    let arrow_schema = input_arrow(&schema);

    let mut state = op.create_state(&entity("e1"));
    op.process_sub_batch(
        &mut state,
        &make_batch(
            &arrow_schema,
            "e1",
            vec![0, 10, 20, 30, 40, 50],
            vec!["a", "b", "c", "d", "e", "f"],
            None,
        ),
    );
    assert!(state.cap_exceeded());
    let out = op.finish_entity(state).expect("partial session emitted");
    let (sids, sdurs) = read_session_columns(&out);
    assert_eq!(sids, vec![1, 1, 1, 1]);
    assert!(sdurs.iter().all(|&d| d == 30));
    assert_eq!(out.inner.num_rows(), 4);
}

#[test]
fn take_pending_warnings_emits_session_event_cap_warning() {
    let schema = events_schema_no_amount();
    let phys = build_physical(schema.duplicate(), 1_000_000, vec![], vec![]);
    let mut op = SessionizeOperator::new(&phys);
    op.session_event_cap = 3;
    let arrow_schema = input_arrow(&schema);

    let mut state = op.create_state(&entity("e1"));
    op.process_sub_batch(
        &mut state,
        &make_batch(
            &arrow_schema,
            "e1",
            vec![0, 10, 20, 30, 40, 50],
            vec!["a", "b", "c", "d", "e", "f"],
            None,
        ),
    );
    assert!(state.cap_exceeded());

    let warnings = op.take_pending_warnings(&mut state, &entity("e1"));
    assert_eq!(warnings.len(), 1);
    match &warnings[0] {
        QueryWarning::SessionEventCapExceeded {
            entity_id,
            event_count,
            cap,
        } => {
            assert_eq!(entity_id, "e1");
            assert!(*event_count >= 4);
            assert_eq!(*cap, 3);
        }
        other => panic!("expected SessionEventCapExceeded, got {other:?}"),
    }

    let again = op.take_pending_warnings(&mut state, &entity("e1"));
    assert!(again.is_empty());
}

#[test]
fn take_pending_warnings_returns_empty_when_cap_not_exceeded() {
    let schema = events_schema_no_amount();
    let phys = build_physical(schema.duplicate(), 1_000_000, vec![], vec![]);
    let op = SessionizeOperator::new(&phys);
    let arrow_schema = input_arrow(&schema);

    let mut state = op.create_state(&entity("e1"));
    op.process_sub_batch(
        &mut state,
        &make_batch(&arrow_schema, "e1", vec![0, 5], vec!["a", "b"], None),
    );
    let warnings = op.take_pending_warnings(&mut state, &entity("e1"));
    assert!(warnings.is_empty());
}

#[test]
fn forwarded_column_flows_through_session_buffer() {
    let schema = events_schema_with_amount();
    let phys = build_physical(schema.duplicate(), 100, vec![], vec!["amount".into()]);
    let op = SessionizeOperator::new(&phys);
    let arrow_schema = input_arrow(&schema);

    let mut state = op.create_state(&entity("e1"));
    let batch = make_batch(
        &arrow_schema,
        "e1",
        vec![0, 50, 200],
        vec!["a", "b", "c"],
        Some(vec![Some(10), Some(20), Some(30)]),
    );
    op.process_sub_batch(&mut state, &batch);
    let out = op.finish_entity(state).unwrap();
    let amount = out
        .inner
        .column_by_name("amount")
        .unwrap()
        .as_any()
        .downcast_ref::<Int64Array>()
        .unwrap();
    assert_eq!(amount.value(0), 10);
    assert_eq!(amount.value(1), 20);
    assert_eq!(amount.value(2), 30);
}

#[test]
fn non_forwarded_column_is_null_padded() {
    let schema = events_schema_with_amount();
    let phys = build_physical(schema.duplicate(), 100, vec![], vec![]);
    let op = SessionizeOperator::new(&phys);
    assert!(
        !op.null_padded_output_indices().is_empty(),
        "at least `amount` is expected to be null-padded"
    );
    let arrow_schema = input_arrow(&schema);

    let mut state = op.create_state(&entity("e1"));
    op.process_sub_batch(
        &mut state,
        &make_batch(
            &arrow_schema,
            "e1",
            vec![0, 50],
            vec!["a", "b"],
            Some(vec![Some(10), Some(20)]),
        ),
    );
    let out = op.finish_entity(state).unwrap();
    let amount = out.inner.column_by_name("amount").unwrap();
    assert_eq!(amount.null_count(), 2);
}

#[test]
fn required_columns_include_ts_and_forwarded() {
    let schema = events_schema_with_amount();
    let phys = build_physical(schema, 100, vec![], vec!["amount".into()]);
    let op = SessionizeOperator::new(&phys);
    let req = op.required_columns();
    assert!(req.iter().any(|n| n == "ts"));
    assert!(req.iter().any(|n| n == "amount"));
    assert!(req.iter().any(|n| n == "entity_id"));
    assert!(req.iter().any(|n| n == "event_type"));
}

#[test]
fn required_columns_include_event_type_when_end_events_set() {
    let schema = events_schema_no_amount();
    let phys = build_physical(schema, 100, vec!["logout".into()], vec![]);
    let op = SessionizeOperator::new(&phys);
    let req = op.required_columns();
    assert!(req.iter().any(|n| n == "event_type"));
}

#[test]
fn supported_demands_advertises_forwarded_columns() {
    let schema = events_schema_no_amount();
    let phys = build_physical(schema, 100, vec![], vec![]);
    let op = SessionizeOperator::new(&phys);
    assert!(op.supported_demands().supports_forwarded_columns);
    assert_eq!(
        op.supported_demands(),
        DemandCapabilities { supports_forwarded_columns: true, ..DemandCapabilities::none() }
    );
}

#[test]
fn end_events_list_is_sorted() {
    let schema = events_schema_no_amount();
    let phys = build_physical(schema, 100, vec!["timeout".into(), "logout".into()], vec![]);
    let op = SessionizeOperator::new(&phys);
    assert_eq!(
        op.end_events_list(),
        &["logout".to_string(), "timeout".to_string()]
    );
}

#[test]
fn buffered_schema_always_includes_entity_id_and_ts() {
    let schema = events_schema_with_amount();
    let phys = build_physical(schema, 100, vec![], vec!["amount".into()]);
    let op = SessionizeOperator::new(&phys);
    let names: Vec<String> = op.buffered_fields().fields.iter().map(|f| f.name.clone()).collect();
    assert!(names.contains(&"entity_id".to_string()));
    assert!(names.contains(&"ts".to_string()));
    assert!(names.contains(&"amount".to_string()));
}

#[test]
fn output_row_count_preserves_input_row_count() {
    let schema = events_schema_no_amount();
    let phys = build_physical(schema.duplicate(), 10, vec![], vec![]);
    let op = SessionizeOperator::new(&phys);
    let arrow_schema = input_arrow(&schema);
    let mut state = op.create_state(&entity("e1"));
    op.process_sub_batch(
        &mut state,
        &make_batch(
            &arrow_schema,
            "e1",
            vec![0, 100, 200, 300, 400],
            vec!["a", "b", "c", "d", "e"],
            None,
        ),
    );
    let out = op.finish_entity(state).unwrap();
    assert_eq!(out.inner.num_rows(), 5);
    let (sids, _) = read_session_columns(&out);
    assert_eq!(sids, vec![1, 2, 3, 4, 5]);
}

/// A history with steps from 0 to 200 and a few event types, different for each seed.
fn history(seed: u64) -> (Vec<i64>, Vec<&'static str>) {
    let mut x = seed.wrapping_mul(6364136223846793005).wrapping_add(1442695040888963407);
    let mut next = |n: u64| {
        x = x.wrapping_mul(6364136223846793005).wrapping_add(1442695040888963407);
        (x >> 33) % n
    };
    let mut now = 1_000i64;
    let mut stamps = vec![];
    let mut types = vec![];
    for _ in 0..1 + next(64) {
        now += next(201) as i64;
        stamps.push(now);
        types.push(["click", "view", "search", "logout"][next(4) as usize]);
    }
    (stamps, types)
}

fn sessions(seed: u64, end_events: Vec<String>, cut: usize) -> Batch {
    let schema = events_schema_no_amount();
    let op = SessionizeOperator::new(&build_physical(schema.duplicate(), 100, end_events, vec![]));
    let arrow_schema = input_arrow(&schema);
    let (stamps, types) = history(seed);
    let cut = cut.min(stamps.len());
    let mut state = op.create_state(&entity("e1"));
    for (s, t) in [(&stamps[..cut], &types[..cut]), (&stamps[cut..], &types[cut..])] {
        let batch = make_batch(&arrow_schema, "e1", s.to_vec(), t.to_vec(), None);
        op.process_sub_batch(&mut state, &batch);
    }
    op.finish_entity(state).unwrap()
}

#[test]
fn every_event_appears_exactly_once() {
    for seed in 0..60 {
        let (stamps, types) = history(seed);
        let out = sessions(seed, vec![], 0);
        assert_eq!(read_ts(&out), stamps);
        assert_eq!(read_types(&out), types);
    }
}

#[test]
fn session_id_monotone_and_duration_matches_range() {
    for seed in 0..60 {
        let out = sessions(seed, vec![], 0);
        let (ids, durations) = read_session_columns(&out);
        let stamps = read_ts(&out);
        assert_eq!(ids[0], 1);
        for i in 1..ids.len() {
            let apart = stamps[i] - stamps[i - 1] > 100;
            assert_eq!(ids[i], ids[i - 1] + apart as i64);
        }
        for i in 0..ids.len() {
            let first = ids.iter().position(|id| *id == ids[i]).unwrap();
            let last = ids.iter().rposition(|id| *id == ids[i]).unwrap();
            assert_eq!(durations[i], stamps[last] - stamps[first]);
        }
    }
}

#[test]
fn end_event_is_last_in_its_session() {
    for seed in 0..60 {
        let out = sessions(seed, vec!["logout".into()], 0);
        let (ids, _) = read_session_columns(&out);
        let types = read_types(&out);
        for i in 0..ids.len() {
            if types[i] == "logout" {
                assert!(i + 1 == ids.len() || ids[i + 1] != ids[i]);
            }
        }
    }
}

#[test]
fn streaming_equivalent_to_single_batch() {
    for seed in 0..40 {
        let whole = sessions(seed, vec!["logout".into()], 0);
        for cut in [1, 2, 7, 30, 64] {
            let parts = sessions(seed, vec!["logout".into()], cut);
            assert_eq!(read_session_columns(&parts), read_session_columns(&whole));
            assert_eq!(read_ts(&parts), read_ts(&whole));
            assert_eq!(read_types(&parts), read_types(&whole));
        }
    }
}

#[test]
fn the_limit_counts_the_events_of_one_session() {
    let schema = events_schema_no_amount();
    let phys = build_physical(schema.duplicate(), 10, vec![], vec![]);
    let op = SessionizeOperator::new_with_cap(&phys, 2);
    let arrow_schema = input_arrow(&schema);
    let mut state = op.create_state(&entity("e1"));
    let batch = make_batch(
        &arrow_schema,
        "e1",
        vec![0, 1, 100, 101, 102, 103],
        vec!["a", "b", "c", "d", "e", "f"],
        None,
    );
    op.process_sub_batch(&mut state, &batch);
    assert_eq!(state.entity_id(), &entity("e1"));
    assert_eq!(state.entity_event_count(), 6);
    let out = op.finish_entity(state).unwrap();
    let (ids, _) = read_session_columns(&out);
    assert_eq!(ids, vec![1, 1, 2, 2, 2]);
}

/// Collects the rows of the batches it is given.
struct Rows(usize);

impl Accumulator for Rows {
    fn update_batch(&mut self, batch: &Batch) -> Result<(), BqliteError> {
        self.0 += batch.inner.num_rows();
        Ok(())
    }
}

#[test]
fn sessions_are_handed_to_an_accumulator() {
    let schema = events_schema_no_amount();
    let op = SessionizeOperator::new(&build_physical(schema.duplicate(), 10, vec![], vec![]));
    let mut rows = Rows(0);
    let mut state = op.create_state(&entity("e1"));
    let batch =
        make_batch(&input_arrow(&schema), "e1", vec![0, 50, 60], vec!["a", "b", "c"], None);
    op.process_sub_batch(&mut state, &batch);
    assert!(op.finish_entity_into(state, &mut rows).is_ok());
    assert_eq!(rows.0, 3);
}

#[test]
fn a_batch_that_cannot_be_read_changes_nothing() {
    let schema = events_schema_with_amount();
    let op = SessionizeOperator::new(&build_physical(
        events_schema_with_amount(),
        10,
        vec![],
        vec!["amount".to_string()],
    ));
    let good = make_batch(&input_arrow(&schema), "u", vec![1, 2], vec!["a", "b"], Some(vec![None; 2]));
    let mut state = op.create_state(&entity("u"));
    assert!(op.can_read(&good));
    assert!(op.process_if_readable(&mut state, &good));
    assert_eq!(state.entity_event_count(), 2);

    let no_amount = Batch { inner: good.inner.project(&[0, 1, 2]).unwrap() };
    let no_time = Batch { inner: good.inner.project(&[0, 2, 1, 3]).unwrap() };
    let null_id = {
        let mut columns: Vec<ArrayRef> = good.inner.columns().to_vec();
        columns[0] = Arc::new(StringViewArray::from(vec![Some("u"), None]));
        let fields: Vec<Field> = input_arrow(&schema)
            .fields()
            .iter()
            .map(|f| f.as_ref().clone().with_nullable(true))
            .collect();
        Batch { inner: RecordBatch::try_new(Arc::new(Schema::new(fields)), columns).unwrap() }
    };
    for bad in [no_amount, no_time, null_id] {
        assert!(!op.can_read(&bad));
        assert!(!op.process_if_readable(&mut state, &bad));
        assert_eq!(state.entity_event_count(), 2);
    }
    let out = op.finish_entity(state).unwrap();
    assert_eq!(read_ts(&out), vec![1, 2]);
}

#[test]
fn a_kept_column_is_converted_to_its_type() {
    let op = SessionizeOperator::new(&build_physical(
        events_schema_with_amount(),
        10,
        vec![],
        vec!["amount".to_string()],
    ));
    let fields = vec![
        Field::new("entity_id", DataType::Utf8, false),
        Field::new("ts", arrow_type(BqlType::Timestamp), false),
        Field::new("event_type", DataType::Utf8View, false),
        Field::new("amount", DataType::Int32, true),
    ];
    let columns: Vec<ArrayRef> = vec![
        Arc::new(arrow::array::StringArray::from(vec!["u"])),
        Arc::new(TimestampNanosecondArray::from(vec![7]).with_timezone("UTC")),
        Arc::new(StringViewArray::from(vec!["a"])),
        Arc::new(Int32Array::from(vec![41])),
    ];
    let batch = Batch { inner: RecordBatch::try_new(Arc::new(Schema::new(fields)), columns).unwrap() };
    let mut state = op.create_state(&entity("u"));
    assert!(op.process_if_readable(&mut state, &batch));
    let out = op.finish_entity(state).unwrap();
    let amount = out.inner.column_by_name("amount").unwrap();
    assert_eq!(amount.as_any().downcast_ref::<Int64Array>().unwrap().value(0), 41);
    let id = out.inner.column_by_name("entity_id").unwrap();
    assert_eq!(id.as_any().downcast_ref::<StringViewArray>().unwrap().value(0), "u");
}

#[test]
fn a_dictionary_of_numbers_ends_no_session() {
    let schema = events_schema_no_amount();
    let phys = build_physical(schema.duplicate(), 100, vec!["1".into()], vec![]);
    let op = SessionizeOperator::new(&phys);
    let keys = Int32Array::from(vec![0, 1, 0]);
    let numbers = Arc::new(Int64Array::from(vec![0, 1]));
    let coded = DictionaryArray::<Int32Type>::try_new(keys, numbers).unwrap();
    let plain =
        make_batch(&input_arrow(&schema), "e1", vec![1, 2, 3], vec!["0", "1", "0"], None);
    let fields = vec![
        Field::new("entity_id", DataType::Utf8View, false),
        Field::new("ts", arrow_type(BqlType::Timestamp), false),
        Field::new("event_type", coded.data_type().clone(), false),
    ];
    let mut columns = plain.inner.columns().to_vec();
    columns[2] = Arc::new(coded);
    let inner = RecordBatch::try_new(Arc::new(Schema::new(fields)), columns).unwrap();
    let sessions = |batch: &Batch| {
        let mut state = op.create_state(&entity("e1"));
        assert!(op.process_if_readable(&mut state, batch));
        let out = op.finish_entity(state).unwrap();
        assert_eq!(read_types(&out), vec!["0", "1", "0"]);
        read_session_columns(&out).0
    };
    assert_eq!(sessions(&plain), vec![1, 1, 2]);
    assert_eq!(sessions(&Batch { inner }), vec![1, 1, 1]);
}

/// A batch of two events whose identifiers and amounts come in the given columns.
fn batch_of(ids: ArrayRef, amounts: ArrayRef) -> Batch {
    let fields = vec![
        Field::new("entity_id", ids.data_type().clone(), true),
        Field::new("ts", arrow_type(BqlType::Timestamp), false),
        Field::new("event_type", DataType::Utf8View, false),
        Field::new("amount", amounts.data_type().clone(), true),
    ];
    let columns: Vec<ArrayRef> = vec![
        ids,
        Arc::new(TimestampNanosecondArray::from(vec![7, 8]).with_timezone("UTC")),
        Arc::new(StringViewArray::from(vec!["a", "b"])),
        amounts,
    ];
    Batch { inner: RecordBatch::try_new(Arc::new(Schema::new(fields)), columns).unwrap() }
}

/// What is kept of two events, or nothing where the batch cannot be read.
fn kept_of(ids: ArrayRef, amounts: ArrayRef) -> Option<(Vec<String>, Vec<Option<i64>>)> {
    let op = SessionizeOperator::new(&build_physical(
        events_schema_with_amount(),
        10,
        vec![],
        vec!["amount".to_string()],
    ));
    let mut state = op.create_state(&entity("u"));
    if !op.process_if_readable(&mut state, &batch_of(ids, amounts)) {
        return None;
    }
    let out = op.finish_entity(state).unwrap();
    let ids = out.inner.column_by_name("entity_id").unwrap();
    let ids = ids.as_any().downcast_ref::<StringViewArray>().unwrap();
    let amounts = out.inner.column_by_name("amount").unwrap();
    let amounts = amounts.as_any().downcast_ref::<Int64Array>().unwrap();
    Some((ids.iter().map(|v| v.unwrap().to_string()).collect(), amounts.iter().collect()))
}

fn texts(list: &[&str]) -> Vec<String> {
    list.iter().map(|t| t.to_string()).collect()
}

#[test]
fn texts_and_bytes_of_any_kind_are_kept() {
    let amounts: ArrayRef = Arc::new(Int64Array::from(vec![1, 2]));
    let large: ArrayRef = Arc::new(LargeStringArray::from(vec!["u", "a text that is not short"]));
    let bytes: ArrayRef = Arc::new(BinaryArray::from(vec![&b"u"[..], &b"v"[..]]));
    assert_eq!(
        kept_of(large.clone(), amounts.clone()).unwrap().0,
        texts(&["u", "a text that is not short"])
    );
    assert_eq!(kept_of(bytes, amounts.clone()).unwrap().0, texts(&["u", "v"]));
    let keys = Int32Array::from(vec![1, 0]);
    let coded: ArrayRef = Arc::new(DictionaryArray::<Int32Type>::try_new(keys, large).unwrap());
    assert_eq!(
        kept_of(coded, amounts).unwrap().0,
        texts(&["a text that is not short", "u"])
    );
}

#[test]
fn dictionaries_of_numbers_and_nulls_are_kept() {
    let ids: ArrayRef = Arc::new(StringViewArray::from(vec!["u", "u"]));
    let keys = Int8Array::from(vec![Some(1), None]);
    let numbers = Arc::new(Int16Array::from(vec![4, 5]));
    let coded: ArrayRef = Arc::new(DictionaryArray::<Int8Type>::try_new(keys, numbers).unwrap());
    assert_eq!(kept_of(ids.clone(), coded).unwrap().1, vec![Some(5), None]);
    let nothing: ArrayRef = Arc::new(NullArray::new(2));
    assert_eq!(kept_of(ids, nothing).unwrap().1, vec![None, None]);
}

#[test]
fn an_entry_that_no_row_names_does_not_matter() {
    let amounts: ArrayRef = Arc::new(Int64Array::from(vec![1, 2]));
    let keys = Int32Array::from(vec![1, 1]);
    let dates = Arc::new(Date64Array::from(vec![i64::MAX, 0]));
    let coded: ArrayRef = Arc::new(DictionaryArray::<Int32Type>::try_new(keys, dates).unwrap());
    assert_eq!(
        kept_of(coded, amounts.clone()).unwrap().0,
        texts(&["1970-01-01T00:00:00", "1970-01-01T00:00:00"])
    );
    let dates: ArrayRef = Arc::new(Date64Array::from(vec![i64::MAX, 0]));
    assert!(kept_of(dates, amounts).is_none());
}

#[test]
fn lists_cannot_be_kept() {
    let amounts: ArrayRef = Arc::new(Int64Array::from(vec![1, 2]));
    let lists: ArrayRef = Arc::new(ListArray::from_iter_primitive::<Int64Type, _, _>(vec![
        Some(vec![Some(1)]),
        Some(vec![Some(2)]),
    ]));
    assert!(kept_of(lists, amounts).is_none());
}

#[test]
fn texts_in_a_buffer_that_is_too_long_cannot_be_kept() {
    let amounts: ArrayRef = Arc::new(Int64Array::from(vec![1, 2]));
    let bytes = |room: usize| -> ArrayRef {
        let buffer = Buffer::from_vec(vec![0u8; room]);
        let lengths = OffsetBuffer::<i32>::from_lengths([1, 1]);
        Arc::new(BinaryArray::new(lengths, buffer, None))
    };
    assert_eq!(kept_of(bytes(2), amounts.clone()).unwrap().0, texts(&["\u{0}", "\u{0}"]));
    assert!(kept_of(bytes(u32::MAX as usize), amounts).is_none());
}
