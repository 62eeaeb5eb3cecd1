//! Turning encoded rows into record batches.

use std::collections::HashMap;
use std::sync::Arc;

use arrow::array::{
    make_array, Array, ArrayData, ArrayRef, DictionaryArray, Int32Array, Int64Array, StringArray,
    StringViewArray, UInt8Array,
};
use arrow::datatypes::{DataType, Field, Int32Type, Schema as ArrowSchema, UInt8Type};
use arrow::record_batch::RecordBatch;

use bqlite_operators::chunks::{concat_column, try_unify_dict_uint8_utf8view};
use bqlite_operators::columnar::{Batch, FieldSpec, SchemaSpec};
use bqlite_operators::error::BqliteError;
use bqlite_operators::materialize::{
    concat_chunks, materialize_filtered_batch, materialize_selected,
    materialize_selected_dict_pushthrough, materialize_selected_with_metrics, materialize_stitched,
    materialize_stitched_dict_pushthrough, schema_matching_arrays, EncodedBatch, FilteredBatch,
    MaterializeMetrics, RowRef, SourceRun, StitchedBatch, StitchedRows,
};
use bqlite_operators::schema::BqlType;
use bqlite_operators::selection::{RowRun, RowSelection, SelectionVector};

fn field(name: &str, data_type: DataType) -> FieldSpec {
    FieldSpec { name: name.to_string(), data_type, nullable: true, metadata: Vec::new() }
}

fn schema_of(fields: Vec<FieldSpec>) -> SchemaSpec {
    SchemaSpec { fields, metadata: Vec::new() }
}

fn i64_schema() -> SchemaSpec {
    schema_of(vec![field("x", DataType::Int64)])
}

fn i64_batch(vals: Vec<i64>) -> Batch {
    let schema = Arc::new(ArrowSchema::new(vec![Field::new("x", DataType::Int64, true)]));
    let column: ArrayRef = Arc::new(Int64Array::from(vals));
    Batch { inner: RecordBatch::try_new(schema, vec![column]).unwrap() }
}

fn materialized_column(vals: Vec<i64>) -> ArrayData {
    Int64Array::from(vals).to_data()
}

fn encoded(row_count: u32, columns: Vec<ArrayData>) -> EncodedBatch {
    EncodedBatch { row_count, columns }
}

fn with_selection(batch: Batch, sv: SelectionVector) -> FilteredBatch {
    FilteredBatch { batch, selection: Some(sv) }
}

fn ints(batch: &Batch) -> Vec<i64> {
    let column = batch.inner.column(0);
    column.as_any().downcast_ref::<Int64Array>().unwrap().values().to_vec()
}

fn dict_chunk(values: &[&str], keys: &[Option<u8>]) -> ArrayData {
    let values = StringViewArray::from(values.to_vec());
    let keys = UInt8Array::from(keys.to_vec());
    DictionaryArray::<UInt8Type>::try_new(keys, Arc::new(values)).unwrap().to_data()
}

fn short_dictionary() -> DataType {
    DataType::Dictionary(Box::new(DataType::UInt8), Box::new(DataType::Utf8View))
}

/// The texts that a dictionary stands for.
fn resolved(a: ArrayData) -> Vec<Option<String>> {
    let a = make_array(a);
    let dict = a.as_any().downcast_ref::<DictionaryArray<UInt8Type>>().unwrap();
    let values = dict.values().as_any().downcast_ref::<StringViewArray>().unwrap();
    dict.keys().iter().map(|k| k.map(|k| values.value(k as usize).to_string())).collect()
}

fn texts(a: ArrayData) -> Vec<Option<String>> {
    let a = make_array(a);
    let a = a.as_any().downcast_ref::<StringViewArray>().expect("texts");
    a.iter().map(|v| v.map(|s| s.to_string())).collect()
}

fn some_texts(list: &[&str]) -> Vec<Option<String>> {
    list.iter().map(|s| Some(s.to_string())).collect()
}

#[test]
fn materialize_selected_dense_passes_every_row() {
    let batch = encoded(4, vec![materialized_column(vec![10, 20, 30, 40])]);
    let fb = materialize_selected(&batch, None, &vec![BqlType::Int], &i64_schema()).ok().unwrap();
    assert!(fb.is_dense());
    assert_eq!(fb.batch.inner.num_rows(), 4);
    assert!(fb.selection.is_none());
}

#[test]
fn materialize_selected_with_runs_applies_selection() {
    let batch = encoded(5, vec![materialized_column(vec![10, 20, 30, 40, 50])]);
    let sel =
        RowSelection::Runs(vec![RowRun { start: 0, len: 1 }, RowRun { start: 3, len: 2 }]);
    let fb =
        materialize_selected(&batch, Some(&sel), &vec![BqlType::Int], &i64_schema()).ok().unwrap();
    assert!(fb.is_dense(), "boundary produces dense batch");
    assert_eq!(fb.batch.inner.num_rows(), 3);
    assert_eq!(ints(&fb.batch), vec![10i64, 40, 50]);
}

#[test]
fn materialize_selected_indices_selection() {
    let batch = encoded(4, vec![materialized_column(vec![10, 20, 30, 40])]);
    let sel = RowSelection::from_indices(SelectionVector::from_sorted(vec![1, 3]));
    let fb =
        materialize_selected(&batch, Some(&sel), &vec![BqlType::Int], &i64_schema()).ok().unwrap();
    assert_eq!(fb.batch.inner.num_rows(), 2);
    assert_eq!(ints(&fb.batch), vec![20i64, 40]);
}

#[test]
fn materialize_selected_type_mismatch_errors() {
    let batch = encoded(2, vec![materialized_column(vec![1, 2])]);
    let types = vec![BqlType::Int, BqlType::Int];
    let err = materialize_selected(&batch, None, &types, &i64_schema())
        .err()
        .expect("wrong types count must fail");
    assert!(matches!(err, BqliteError::Execution(_)));
}

#[test]
fn materialize_selected_with_metrics_records_boundary_counters() {
    let batch = encoded(5, vec![materialized_column(vec![10, 20, 30, 40, 50])]);
    let sel = RowSelection::from_indices(SelectionVector::from_sorted(vec![0, 2, 4]));
    let mut metrics = MaterializeMetrics::new();
    let fb = materialize_selected_with_metrics(
        &batch,
        Some(&sel),
        &vec![BqlType::Int],
        &i64_schema(),
        &mut metrics,
    )
    .ok()
    .unwrap();
    assert_eq!(fb.batch.inner.num_rows(), 3);
    assert_eq!(metrics.selected_rows_before_materialization, 3);
    assert_eq!(metrics.materialized_rows, 3);
    assert!(metrics.bytes_materialized_after_filter > 0);
}

#[test]
fn materialize_selected_with_metrics_none_selection_counts_row_count() {
    let batch = encoded(3, vec![materialized_column(vec![10, 20, 30])]);
    let mut metrics = MaterializeMetrics::new();
    let r = materialize_selected_with_metrics(
        &batch,
        None,
        &vec![BqlType::Int],
        &i64_schema(),
        &mut metrics,
    );
    assert!(r.is_ok());
    assert_eq!(metrics.selected_rows_before_materialization, 3);
    assert_eq!(metrics.materialized_rows, 3);
}

#[test]
fn stitched_single_source_delegates_to_materialize_selected() {
    let stitched = StitchedBatch {
        sources: vec![encoded(3, vec![materialized_column(vec![10, 20, 30])])],
        rows: StitchedRows::SingleSource {
            source: 0,
            selection: Some(RowSelection::from_indices(SelectionVector::from_sorted(vec![0, 2]))),
        },
    };
    let fb = materialize_stitched(&stitched, &vec![BqlType::Int], &i64_schema()).ok().unwrap();
    assert_eq!(fb.batch.inner.num_rows(), 2);
    assert_eq!(ints(&fb.batch), vec![10i64, 30]);
}

#[test]
fn stitched_runs_concatenates_source_slices() {
    let s0 = encoded(3, vec![materialized_column(vec![1, 2, 3])]);
    let s1 = encoded(4, vec![materialized_column(vec![10, 20, 30, 40])]);
    let stitched = StitchedBatch {
        sources: vec![s0, s1],
        rows: StitchedRows::Runs(vec![
            SourceRun { source: 0, start: 1, len: 2 },
            SourceRun { source: 1, start: 0, len: 2 },
            SourceRun { source: 0, start: 0, len: 1 },
        ]),
    };
    let fb = materialize_stitched(&stitched, &vec![BqlType::Int], &i64_schema()).ok().unwrap();
    assert_eq!(ints(&fb.batch), vec![2i64, 3, 10, 20, 1]);
}

#[test]
fn stitched_indices_interleaves_rows() {
    let s0 = encoded(3, vec![materialized_column(vec![100, 200, 300])]);
    let s1 = encoded(2, vec![materialized_column(vec![1000, 2000])]);
    let stitched = StitchedBatch {
        sources: vec![s0, s1],
        rows: StitchedRows::Indices(vec![
            RowRef { source: 0, row: 2 },
            RowRef { source: 1, row: 0 },
            RowRef { source: 0, row: 0 },
            RowRef { source: 1, row: 1 },
            RowRef { source: 0, row: 1 },
        ]),
    };
    let fb = materialize_stitched(&stitched, &vec![BqlType::Int], &i64_schema()).ok().unwrap();
    assert_eq!(ints(&fb.batch), vec![300i64, 1000, 100, 2000, 200]);
}

#[test]
fn materialize_filtered_batch_dense_input_returns_inner_batch_no_metric() {
    let mut metrics = MaterializeMetrics::new();
    let batch = i64_batch(vec![1_i64, 2, 3]);
    let out = materialize_filtered_batch(FilteredBatch::dense(batch), &mut metrics).ok().unwrap();
    assert_eq!(out.inner.num_rows(), 3);
    assert_eq!(metrics.selection_vector_materializations, 0);
}

#[test]
fn materialize_filtered_batch_full_cover_selection_short_circuits() {
    let mut metrics = MaterializeMetrics::new();
    let batch = i64_batch(vec![10_i64, 20, 30]);
    let sv = SelectionVector::from_sorted(vec![0, 1, 2]);
    let out = materialize_filtered_batch(with_selection(batch, sv), &mut metrics).ok().unwrap();
    assert_eq!(out.inner.num_rows(), 3);
    assert_eq!(metrics.selection_vector_materializations, 0);
}

#[test]
fn materialize_filtered_batch_sparse_selection_copies_and_increments() {
    let mut metrics = MaterializeMetrics::new();
    let batch = i64_batch(vec![10_i64, 20, 30, 40, 50]);
    let sv = SelectionVector::from_sorted(vec![0, 2, 4]);
    let out = materialize_filtered_batch(with_selection(batch, sv), &mut metrics).ok().unwrap();
    assert_eq!(out.inner.num_rows(), 3);
    assert_eq!(ints(&out), vec![10i64, 30, 50]);
    assert_eq!(metrics.selection_vector_materializations, 1);
}

#[test]
fn materialize_filtered_batch_empty_selection_returns_zero_rows() {
    let mut metrics = MaterializeMetrics::new();
    let batch = i64_batch(vec![10_i64, 20]);
    let sv = SelectionVector::new();
    let out = materialize_filtered_batch(with_selection(batch, sv), &mut metrics).ok().unwrap();
    assert_eq!(out.inner.num_rows(), 0);
    assert_eq!(metrics.selection_vector_materializations, 1);
}

#[test]
fn materialize_selected_empty_selection_yields_zero_rows() {
    let batch = encoded(3, vec![materialized_column(vec![10, 20, 30])]);
    let sel = RowSelection::empty();
    let fb =
        materialize_selected(&batch, Some(&sel), &vec![BqlType::Int], &i64_schema()).ok().unwrap();
    assert_eq!(fb.batch.inner.num_rows(), 0);
    assert!(fb.is_dense());
}

#[test]
fn unify_dict_uint8_utf8view_concats_disjoint_dicts() {
    let chunks = vec![
        dict_chunk(&["x", "y"], &[Some(0), Some(1), Some(0)]),
        dict_chunk(&["y", "z"], &[Some(1), Some(0)]),
    ];
    let unified = try_unify_dict_uint8_utf8view(&chunks).unwrap();
    let resolved = resolved(unified);
    assert_eq!(resolved.len(), 5);
    assert_eq!(resolved, some_texts(&["x", "y", "x", "z", "y"]));
}

#[test]
fn unify_dict_uint8_utf8view_preserves_null_keys() {
    let chunks = vec![
        dict_chunk(&["a", "b"], &[Some(0), None, Some(1)]),
        dict_chunk(&["b"], &[Some(0)]),
    ];
    let unified = make_array(try_unify_dict_uint8_utf8view(&chunks).unwrap());
    let dict = unified.as_any().downcast_ref::<DictionaryArray<UInt8Type>>().unwrap();
    assert_eq!(dict.keys().len(), 4);
    assert!(!dict.keys().is_null(0));
    assert!(dict.keys().is_null(1));
    assert!(!dict.keys().is_null(2));
    assert!(!dict.keys().is_null(3));
}

#[test]
fn unify_dict_uint8_utf8view_returns_none_on_u8_overflow() {
    let a_vals: Vec<String> = (0..200).map(|i| format!("a{i}")).collect();
    let b_vals: Vec<String> = (0..100).map(|i| format!("b{i}")).collect();
    let a_refs: Vec<&str> = a_vals.iter().map(|s| s.as_str()).collect();
    let b_refs: Vec<&str> = b_vals.iter().map(|s| s.as_str()).collect();
    let a_keys: Vec<Option<u8>> = (0..200).map(|i| Some(i as u8)).collect();
    let b_keys: Vec<Option<u8>> = (0..100).map(|i| Some(i as u8)).collect();
    let chunks = vec![dict_chunk(&a_refs, &a_keys), dict_chunk(&b_refs, &b_keys)];
    let unified = try_unify_dict_uint8_utf8view(&chunks);
    assert!(unified.is_none(), "u8 overflow must fall back");
}

#[test]
fn concat_chunks_dict_path_emits_single_dict_when_all_dict() {
    let chunks = vec![vec![
        dict_chunk(&["foo", "bar"], &[Some(0), Some(1)]),
        dict_chunk(&["bar", "baz"], &[Some(0), Some(1)]),
    ]];
    let out = concat_chunks(&chunks).unwrap();
    assert_eq!(out.len(), 1);
    assert_eq!(out[0].data_type(), &short_dictionary());
    assert_eq!(out[0].len(), 4);
}

#[test]
fn concat_chunks_falls_back_to_stringview_on_mixed_shapes() {
    let sv = StringViewArray::from(vec!["x", "z"]).to_data();
    let chunks = vec![vec![dict_chunk(&["a", "b"], &[Some(0), Some(1)]), sv]];
    let out = concat_chunks(&chunks).unwrap();
    assert_eq!(out.len(), 1);
    let strs = make_array(out[0].clone());
    let strs =
        strs.as_any().downcast_ref::<StringViewArray>().expect("fallback emits StringViewArray");
    assert_eq!(strs.len(), 4);
    assert_eq!(strs.value(0), "a");
    assert_eq!(strs.value(1), "b");
    assert_eq!(strs.value(2), "x");
    assert_eq!(strs.value(3), "z");
}

#[test]
fn dictionaries_that_do_not_fit_become_texts() {
    let a_vals: Vec<String> = (0..200).map(|i| format!("a{i}")).collect();
    let b_vals: Vec<String> = (0..100).map(|i| format!("b{i}")).collect();
    let a_refs: Vec<&str> = a_vals.iter().map(|s| s.as_str()).collect();
    let b_refs: Vec<&str> = b_vals.iter().map(|s| s.as_str()).collect();
    let a_keys: Vec<Option<u8>> = (0..200).map(|i| Some(i as u8)).collect();
    let b_keys: Vec<Option<u8>> = (0..100).map(|i| Some(i as u8)).collect();
    let chunks = vec![dict_chunk(&a_refs, &a_keys), dict_chunk(&b_refs, &b_keys)];
    let all = texts(concat_column(&chunks).unwrap());
    assert_eq!(all.len(), 300);
    assert_eq!(all[199], Some("a199".to_string()));
    assert_eq!(all[200], Some("b0".to_string()));
}

#[test]
fn a_dictionary_of_as_many_entries_as_a_byte_numbers_is_kept() {
    let vals: Vec<String> = (0..256).map(|i| format!("v{i:03}")).collect();
    let a: Vec<&str> = vals[..200].iter().map(|s| s.as_str()).collect();
    let b: Vec<&str> = vals[150..].iter().map(|s| s.as_str()).collect();
    let chunks = vec![dict_chunk(&a, &[Some(199)]), dict_chunk(&b, &[Some(105), Some(0)])];
    let out = try_unify_dict_uint8_utf8view(&chunks).unwrap();
    assert_eq!(resolved(out), some_texts(&["v199", "v255", "v150"]));
}

#[test]
fn one_chunk_is_handed_back() {
    let chunk = dict_chunk(&["a"], &[Some(0), None]);
    let out = concat_column(&vec![chunk]).unwrap();
    assert_eq!(resolved(out), vec![Some("a".to_string()), None]);
}

#[test]
fn no_chunk_is_refused() {
    assert!(concat_column(&Vec::new()).is_err());
}

#[test]
fn chunks_of_different_types_are_refused() {
    let a = materialized_column(vec![1]);
    let b = StringViewArray::from(vec!["x"]).to_data();
    assert!(concat_column(&vec![a, b]).is_err());
}

#[test]
fn dictionaries_of_numbers_are_unpacked() {
    let keys = Int32Array::from(vec![Some(1), None, Some(0)]);
    let entries = Arc::new(Int64Array::from(vec![Some(7), None]));
    let coded = DictionaryArray::<Int32Type>::try_new(keys, entries).unwrap().to_data();
    let out = concat_column(&vec![materialized_column(vec![1]), coded]).unwrap();
    let out = make_array(out);
    let out = out.as_any().downcast_ref::<Int64Array>().unwrap();
    assert_eq!(out.iter().collect::<Vec<_>>(), vec![Some(1), None, None, Some(7)]);
}

#[test]
fn a_batch_of_other_columns_is_not_consistent() {
    let texts = StringArray::from(vec!["a", "b"]);
    let keys = Int32Array::from(vec![0, 1]);
    let coded = DictionaryArray::<Int32Type>::try_new(keys, Arc::new(texts.clone())).unwrap();
    assert!(!encoded(2, vec![texts.to_data()]).is_consistent());
    assert!(!encoded(2, vec![coded.to_data()]).is_consistent());
    assert!(encoded(2, vec![dict_chunk(&["a"], &[Some(0), None])]).is_consistent());
    assert!(!encoded(3, vec![dict_chunk(&["a"], &[Some(0), None])]).is_consistent());
}

#[test]
fn stitched_dictionaries_keep_their_type() {
    let source = |values: &[&str], keys: &[Option<u8>]| {
        encoded(keys.len() as u32, vec![dict_chunk(values, keys)])
    };
    let sources = || {
        vec![source(&["a", "b"], &[Some(0), Some(1)]), source(&["b", "c"], &[Some(1), None])]
    };
    let rows = || {
        StitchedRows::Indices(vec![
            RowRef { source: 1, row: 0 },
            RowRef { source: 0, row: 1 },
            RowRef { source: 1, row: 1 },
        ])
    };
    let types = vec![BqlType::String];
    let schema = schema_of(vec![field("t", DataType::Utf8View)]);
    let stitched = StitchedBatch { sources: sources(), rows: rows() };
    let fb = materialize_stitched_dict_pushthrough(&stitched, &types, &schema).ok().unwrap();
    let batch = fb.batch.inner;
    assert_eq!(batch.schema().field(0).data_type(), &short_dictionary());
    assert_eq!(
        resolved(batch.column(0).to_data()),
        vec![Some("c".to_string()), Some("b".to_string()), None]
    );
    let stitched = StitchedBatch { sources: sources(), rows: rows() };
    assert!(materialize_stitched(&stitched, &types, &schema).is_err());
}

#[test]
fn runs_and_single_rows_give_the_same_batch() {
    let sources = || {
        vec![
            encoded(3, vec![materialized_column(vec![1, 2, 3])]),
            encoded(2, vec![materialized_column(vec![7, 8])]),
        ]
    };
    let run = |source: u32, start: u32, len: u32| SourceRun { source, start, len };
    let row = |source: u32, row: u32| RowRef { source, row };
    let runs = StitchedRows::Runs(vec![run(0, 0, 2), run(1, 1, 1), run(0, 2, 1)]);
    let refs = StitchedRows::Indices(vec![row(0, 0), row(0, 1), row(1, 1), row(0, 2)]);
    let of = |rows: StitchedRows| {
        let stitched = StitchedBatch { sources: sources(), rows };
        let fb = materialize_stitched(&stitched, &vec![BqlType::Int], &i64_schema());
        ints(&fb.ok().unwrap().batch)
    };
    assert_eq!(of(runs), vec![1, 2, 8, 3]);
    assert_eq!(of(refs), vec![1, 2, 8, 3]);
}

#[test]
fn a_run_of_a_missing_source_is_refused() {
    let stitched = StitchedBatch {
        sources: vec![encoded(1, vec![materialized_column(vec![1])])],
        rows: StitchedRows::Runs(vec![SourceRun { source: 3, start: 0, len: 1 }]),
    };
    let e = materialize_stitched(&stitched, &vec![BqlType::Int], &i64_schema()).err().unwrap();
    assert!(matches!(&e, BqliteError::Execution(m) if m.contains("3")), "{e:?}");
}

#[test]
fn a_source_with_other_columns_is_refused() {
    let columns = vec![materialized_column(vec![1]), materialized_column(vec![2])];
    let sources = || vec![encoded(1, columns.clone())];
    for rows in [
        StitchedRows::Runs(vec![SourceRun { source: 0, start: 0, len: 1 }]),
        StitchedRows::Indices(vec![RowRef { source: 0, row: 0 }]),
        StitchedRows::SingleSource { source: 0, selection: None },
    ] {
        let stitched = StitchedBatch { sources: sources(), rows };
        let e = materialize_stitched(&stitched, &vec![BqlType::Int], &i64_schema());
        assert!(matches!(e.err(), Some(BqliteError::Execution(_))));
    }
}

#[test]
fn dictionaries_of_a_source_can_be_kept() {
    let column = dict_chunk(&["a", "b"], &[Some(1), Some(0), None]);
    let batch = encoded(3, vec![column]);
    let sel = RowSelection::from_indices(SelectionVector::from_sorted(vec![0, 2]));
    let mut metrics = MaterializeMetrics::new();
    let fb = materialize_selected_dict_pushthrough(
        &batch,
        Some(&sel),
        &vec![BqlType::String],
        &schema_of(vec![field("t", DataType::Utf8View)]),
        &mut metrics,
    )
    .ok()
    .unwrap();
    let out = fb.batch.inner;
    assert_eq!(out.schema().field(0).data_type(), &short_dictionary());
    assert_eq!(resolved(out.column(0).to_data()), vec![Some("b".to_string()), None]);
    assert_eq!(metrics.materialized_rows, 2);
}

#[test]
fn rows_of_longer_dictionaries_are_taken() {
    let mut column: Vec<Option<&str>> = vec![Some("x"), Some("y")];
    column.push(None);
    let column: DictionaryArray<Int32Type> = column.into_iter().collect();
    let kept = column.data_type().clone();
    let batch = encoded(3, vec![column.to_data()]);
    let sel = RowSelection::from_indices(SelectionVector::from_sorted(vec![1, 2]));
    let mut metrics = MaterializeMetrics::new();
    let fb = materialize_selected_dict_pushthrough(
        &batch,
        Some(&sel),
        &vec![BqlType::String],
        &schema_of(vec![field("t", DataType::Utf8View)]),
        &mut metrics,
    )
    .ok()
    .unwrap();
    let out = fb.batch.inner;
    assert_eq!(out.schema().field(0).data_type(), &kept);
    let column = out.column(0).as_any().downcast_ref::<DictionaryArray<Int32Type>>().unwrap();
    let entries = column.values().as_any().downcast_ref::<StringArray>().unwrap();
    assert_eq!(entries.value(column.keys().value(0) as usize), "y");
    assert!(column.is_null(1));
}

#[test]
fn a_matching_schema_keeps_names_and_metadata() {
    let mut plain = field("n", DataType::Int64);
    plain.metadata = vec![("unit".to_string(), "ms".to_string())];
    let mut schema = schema_of(vec![plain, field("t", DataType::Utf8View)]);
    schema.metadata = vec![("k".to_string(), "v".to_string())];
    let arrays = vec![materialized_column(vec![1]), dict_chunk(&["a"], &[Some(0)])];
    let out = schema_matching_arrays(&schema, &arrays).unwrap();
    assert_eq!(out.fields[0].data_type, DataType::Int64);
    assert_eq!(out.fields[1].data_type, short_dictionary());
    assert_eq!(out.fields[1].name, "t");
    let metadata: HashMap<String, String> = out.fields[0].metadata.iter().cloned().collect();
    assert_eq!(metadata.get("unit").map(|s| s.as_str()), Some("ms"));
    assert_eq!(out.metadata, schema.metadata);
}

#[test]
fn a_schema_with_other_fields_is_refused() {
    let arrays = vec![materialized_column(vec![1]), materialized_column(vec![2])];
    let e = schema_matching_arrays(&i64_schema(), &arrays).err().unwrap();
    assert_eq!(e.message(), "schema_matching_arrays: schema has 1 fields but 2 arrays");
}

#[test]
fn a_column_of_another_type_than_its_field_is_refused() {
    let batch = encoded(1, vec![materialized_column(vec![1])]);
    let schema = schema_of(vec![field("x", DataType::Utf8View)]);
    assert!(materialize_selected(&batch, None, &vec![BqlType::Int], &schema).is_err());
}

#[test]
fn inconsistent_batches_are_told_apart() {
    let texts = StringArray::from(vec!["a"]).to_data();
    assert!(encoded(1, vec![materialized_column(vec![1])]).is_consistent());
    assert!(!encoded(2, vec![materialized_column(vec![1])]).is_consistent());
    assert!(!encoded(1, vec![texts]).is_consistent());
    let stitched = |rows: StitchedRows| {
        let sources = vec![encoded(2, vec![materialized_column(vec![1, 2])])];
        StitchedBatch { sources, rows }.is_consistent()
    };
    assert!(stitched(StitchedRows::Runs(vec![SourceRun { source: 0, start: 1, len: 1 }])));
    assert!(!stitched(StitchedRows::Runs(vec![SourceRun { source: 0, start: 1, len: 2 }])));
    assert!(stitched(StitchedRows::Runs(vec![SourceRun { source: 5, start: 1, len: 2 }])));
    assert!(stitched(StitchedRows::Indices(vec![RowRef { source: 0, row: 1 }])));
    assert!(!stitched(StitchedRows::Indices(vec![RowRef { source: 0, row: 2 }])));
    assert!(!stitched(StitchedRows::Indices(vec![RowRef { source: 1, row: 0 }])));
    let selection = |indices: Vec<u32>| Some(RowSelection::Indices(SelectionVector { indices }));
    let single = |indices: Vec<u32>| {
        stitched(StitchedRows::SingleSource { source: 0, selection: selection(indices) })
    };
    assert!(single(vec![0, 1]));
    assert!(!single(vec![1, 0]));
    assert!(!single(vec![2]));
    assert!(with_selection(i64_batch(vec![1, 2]), SelectionVector { indices: vec![1] }).is_consistent());
    assert!(!with_selection(i64_batch(vec![1]), SelectionVector { indices: vec![1] }).is_consistent());
}

#[test]
fn a_merged_dictionary_has_every_entry_once() {
    let chunks = vec![
        dict_chunk(&["b", "a", "b"], &[Some(0), Some(2)]),
        dict_chunk(&["c", "a"], &[None]),
    ];
    let merged = make_array(try_unify_dict_uint8_utf8view(&chunks).unwrap());
    let dict = merged.as_any().downcast_ref::<DictionaryArray<UInt8Type>>().unwrap();
    let values = dict.values().as_any().downcast_ref::<StringViewArray>().unwrap();
    let entries: Vec<&str> = values.iter().map(|v| v.unwrap()).collect();
    assert_eq!(entries, vec!["b", "a", "c"]);
    assert!(try_unify_dict_uint8_utf8view(&Vec::new()).is_none());
}

#[test]
fn a_run_without_rows_brings_no_entries() {
    let wide: Vec<String> = (0..200).map(|i| format!("w{i}")).collect();
    let wide: Vec<&str> = wide.iter().map(|s| s.as_str()).collect();
    let more: Vec<String> = (0..200).map(|i| format!("m{i}")).collect();
    let more: Vec<&str> = more.iter().map(|s| s.as_str()).collect();
    let source = |c: ArrayData| EncodedBatch { row_count: c.len() as u32, columns: vec![c] };
    let stitched = StitchedBatch {
        sources: vec![
            source(dict_chunk(&wide, &[Some(7)])),
            source(dict_chunk(&more, &[Some(3)])),
        ],
        rows: StitchedRows::Runs(vec![
            SourceRun { source: 0, start: 0, len: 1 },
            SourceRun { source: 1, start: 0, len: 0 },
        ]),
    };
    let schema = schema_of(vec![field("s", DataType::Utf8View)]);
    let types = vec![BqlType::String];
    let out = materialize_stitched_dict_pushthrough(&stitched, &types, &schema).ok().unwrap();
    let column = out.batch.inner.column(0);
    assert_eq!(column.data_type(), &short_dictionary());
    assert_eq!(resolved(column.to_data()), some_texts(&["w7"]));
}

#[test]
fn a_materialized_batch_has_the_metadata_of_its_schema() {
    let pair = |k: &str, v: &str| (k.to_string(), v.to_string());
    let mut schema = i64_schema();
    schema.metadata = vec![pair("k", "v"), pair("l", "w")];
    schema.fields[0].metadata = vec![pair("unit", "ms")];
    let batch = EncodedBatch { row_count: 2, columns: vec![materialized_column(vec![1, 2])] };
    let types = vec![BqlType::Int];
    let mut metrics = MaterializeMetrics::new();
    let plain = materialize_selected(&batch, None, &types, &schema).ok().unwrap();
    let kept = materialize_selected_dict_pushthrough(&batch, None, &types, &schema, &mut metrics);
    for out in [plain, kept.ok().unwrap()] {
        let built = out.batch.inner.schema();
        let expected: HashMap<String, String> = schema.metadata.iter().cloned().collect();
        assert_eq!(built.metadata(), &expected);
        assert_eq!(built.field(0).metadata().get("unit").map(|s| s.as_str()), Some("ms"));
    }
}
