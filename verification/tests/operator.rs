//! The operator traits, and cancellation.

use std::sync::Arc;

use arrow::array::{Array, ArrayRef, Int64Array};
use arrow::datatypes::{DataType, Field, Schema};
use arrow::record_batch::RecordBatch;

use bqlite_operators::columnar::Batch;
use bqlite_operators::error::BqliteError;
use bqlite_operators::operator::{
    Accumulator, CancellationToken, DemandCapabilities, EntityOperator, PhysicalOperator,
    feed_results,
};
use bqlite_operators::schema::{BqlType, ColumnDef, OperatorSchema};
use bqlite_operators::value::EntityId;

#[test]
fn cancellation_token_new_is_not_cancelled() {
    let token = CancellationToken::new();
    assert!(!token.is_cancelled());
}

#[test]
fn cancellation_token_default_matches_new() {
    let a = CancellationToken::default();
    let b = CancellationToken::new();
    assert_eq!(a.is_cancelled(), b.is_cancelled());
}

#[test]
fn cancellation_token_observes_cancel() {
    let token = CancellationToken::new();
    token.cancel();
    assert!(token.is_cancelled());
}

#[test]
fn cancellation_token_cancel_is_idempotent() {
    let token = CancellationToken::new();
    token.cancel();
    token.cancel();
    token.cancel();
    assert!(token.is_cancelled());
}

#[test]
fn cancellation_token_clone_shares_state() {
    let original = CancellationToken::new();
    let clone_a = original.clone();
    let clone_b = original.clone();
    assert!(!clone_a.is_cancelled());
    assert!(!clone_b.is_cancelled());

    clone_a.cancel();

    assert!(original.is_cancelled());
    assert!(clone_a.is_cancelled());
    assert!(clone_b.is_cancelled());
}

fn make_schema() -> OperatorSchema {
    OperatorSchema::new(vec![ColumnDef::required("value", BqlType::Int)])
        .expect("schema construction should succeed")
}

fn make_batch(rows: Vec<i64>) -> Batch {
    let array: ArrayRef = Arc::new(Int64Array::from(rows));
    let schema = Schema::new(vec![Field::new("value", DataType::Int64, false)]);
    let inner = RecordBatch::try_new(Arc::new(schema), vec![array])
        .expect("record batch construction should succeed");
    Batch { inner }
}

struct VecOp {
    schema: OperatorSchema,
    batches: Vec<Batch>,
    next_idx: usize,
    cancel: CancellationToken,
    open_calls: usize,
    close_calls: usize,
}

impl VecOp {
    fn new(
        schema: OperatorSchema,
        batches: Vec<Batch>,
        cancel: CancellationToken,
    ) -> Self {
        Self {
            schema,
            batches,
            next_idx: 0,
            cancel,
            open_calls: 0,
            close_calls: 0,
        }
    }
}

impl PhysicalOperator for VecOp {
    fn output_schema(&self) -> &OperatorSchema {
        &self.schema
    }

    fn open(&mut self) -> Result<(), BqliteError> {
        self.open_calls += 1;
        Ok(())
    }

    fn next_batch(&mut self) -> Result<Option<Batch>, BqliteError> {
        if self.cancel.is_cancelled() {
            return Err(BqliteError::Cancelled);
        }
        if self.next_idx >= self.batches.len() {
            return Ok(None);
        }
        let batch = Batch { inner: self.batches[self.next_idx].inner.clone() };
        self.next_idx += 1;
        Ok(Some(batch))
    }

    fn close(&mut self) -> Result<(), BqliteError> {
        self.close_calls += 1;
        Ok(())
    }
}

#[test]
fn physical_operator_default_open_close_are_noop() {
    struct Bare {
        schema: OperatorSchema,
    }
    impl PhysicalOperator for Bare {
        fn output_schema(&self) -> &OperatorSchema {
            &self.schema
        }
        fn next_batch(&mut self) -> Result<Option<Batch>, BqliteError> {
            Ok(None)
        }
    }

    let mut op = Bare {
        schema: make_schema(),
    };
    assert!(op.open().is_ok());
    assert!(op.next_batch().unwrap().is_none());
    assert!(op.close().is_ok());
}

#[test]
fn physical_operator_lifecycle_drains_then_closes() {
    let cancel = CancellationToken::new();
    let batches = vec![make_batch(vec![1, 2, 3]), make_batch(vec![4, 5])];
    let mut op = VecOp::new(make_schema(), batches, cancel);

    op.open().unwrap();
    assert_eq!(op.open_calls, 1);

    let a = op.next_batch().unwrap().unwrap();
    assert_eq!(a.inner.num_rows(), 3);
    let b = op.next_batch().unwrap().unwrap();
    assert_eq!(b.inner.num_rows(), 2);
    assert!(op.next_batch().unwrap().is_none());
    assert!(op.next_batch().unwrap().is_none());

    op.close().unwrap();
    assert_eq!(op.close_calls, 1);
}

#[test]
fn physical_operator_surfaces_cancellation() {
    let cancel = CancellationToken::new();
    let mut op = VecOp::new(
        make_schema(),
        vec![make_batch(vec![1]), make_batch(vec![2])],
        cancel.clone(),
    );

    assert!(op.next_batch().unwrap().is_some());

    cancel.cancel();
    match op.next_batch() {
        Err(BqliteError::Cancelled) => {}
        _ => panic!("expected Cancelled"),
    }
}

#[test]
fn physical_operator_close_is_idempotent() {
    let mut op = VecOp::new(make_schema(), vec![], CancellationToken::new());
    op.close().unwrap();
    op.close().unwrap();
    op.close().unwrap();
    assert_eq!(op.close_calls, 3);
}

#[test]
fn physical_operator_trait_object_compiles() {
    let op = VecOp::new(make_schema(), vec![], CancellationToken::new());
    let _boxed: Box<dyn PhysicalOperator> = Box::new(op);
}

struct SumOp {
    schema: OperatorSchema,
    required: Vec<String>,
}

struct SumState {
    entity: EntityId,
    total: i64,
}

impl EntityOperator for SumOp {
    type State = SumState;

    fn create_state(&self, entity_id: &EntityId) -> SumState {
        SumState {
            entity: entity_id.duplicate(),
            total: 0,
        }
    }

    fn output_schema(&self) -> &OperatorSchema {
        &self.schema
    }

    fn process_sub_batch(&self, state: &mut SumState, batch: &Batch) {
        let column = batch
            .inner
            .column(0)
            .as_any()
            .downcast_ref::<Int64Array>()
            .expect("value column must be Int64Array");
        for i in 0..column.len() {
            state.total += column.value(i);
        }
    }

    fn finish_entity(&self, state: SumState) -> Option<Batch> {
        if state.total == 0 {
            return None;
        }
        let _ = state.entity;
        Some(make_batch(vec![state.total]))
    }

    fn finish_entity_into<A: Accumulator>(
        &self,
        state: Self::State,
        accumulator: &mut A,
    ) -> Result<(), BqliteError> {
        feed_results(self, state, accumulator)
    }

    fn required_columns(&self) -> &[String] {
        &self.required
    }
}

fn sum_op() -> SumOp {
    SumOp {
        schema: make_schema(),
        required: vec!["value".to_string()],
    }
}

#[test]
fn entity_operator_processes_single_sub_batch() {
    let op = sum_op();
    let mut state = op.create_state(&EntityId::String("u1".to_string()));
    op.process_sub_batch(&mut state, &make_batch(vec![1, 2, 3, 4]));
    let out = op.finish_entity(state).expect("sum should be non-zero");
    let col = out.inner.column(0).as_any().downcast_ref::<Int64Array>().unwrap();
    assert_eq!(col.value(0), 10);
}

#[test]
fn entity_operator_accumulates_across_sub_batches() {
    let op = sum_op();
    let mut state = op.create_state(&EntityId::String("u1".to_string()));
    op.process_sub_batch(&mut state, &make_batch(vec![1, 2]));
    op.process_sub_batch(&mut state, &make_batch(vec![3, 4]));
    op.process_sub_batch(&mut state, &make_batch(vec![5]));
    let out = op.finish_entity(state).expect("sum should be non-zero");
    let col = out.inner.column(0).as_any().downcast_ref::<Int64Array>().unwrap();
    assert_eq!(col.value(0), 15);
}

#[test]
fn entity_operator_finish_can_return_none() {
    let op = sum_op();
    let state = op.create_state(&EntityId::String("u1".to_string()));
    assert!(op.finish_entity(state).is_none());
}

#[test]
fn entity_operator_required_columns_reflects_inputs() {
    let op = sum_op();
    assert_eq!(op.required_columns(), &["value".to_string()]);
}

#[test]
fn entity_operator_create_state_captures_entity_id() {
    let op = sum_op();
    let state = op.create_state(&EntityId::Int(42));
    assert_eq!(state.entity, EntityId::Int(42));
    assert_eq!(state.total, 0);
}

#[test]
fn entity_operator_is_send_sync() {
    fn assert_send_sync<T: Send + Sync>() {}
    assert_send_sync::<SumOp>();
}

#[test]
fn entity_operator_default_take_pending_warnings_is_empty() {
    let op = sum_op();
    let mut state = op.create_state(&EntityId::String("u1".to_string()));
    let warnings = op.take_pending_warnings(&mut state, &EntityId::String("u1".to_string()));
    assert!(warnings.is_empty());
}

#[test]
fn entity_operator_default_supported_demands_is_none() {
    let op = sum_op();
    assert_eq!(op.supported_demands(), DemandCapabilities::none());
}

struct OverrideOp {
    schema: OperatorSchema,
    required: Vec<String>,
}

impl EntityOperator for OverrideOp {
    type State = ();

    fn create_state(&self, _entity_id: &EntityId) -> Self::State {}

    fn output_schema(&self) -> &OperatorSchema {
        &self.schema
    }

    fn process_sub_batch(&self, _state: &mut Self::State, _batch: &Batch) {}

    fn finish_entity(&self, _state: Self::State) -> Option<Batch> {
        None
    }

    fn finish_entity_into<A: Accumulator>(
        &self,
        state: Self::State,
        accumulator: &mut A,
    ) -> Result<(), BqliteError> {
        feed_results(self, state, accumulator)
    }

    fn required_columns(&self) -> &[String] {
        &self.required
    }

    fn supported_demands(&self) -> DemandCapabilities {
        DemandCapabilities {
            supports_forwarded_columns: true,
            ..DemandCapabilities::none()
        }
    }
}

#[test]
fn entity_operator_supported_demands_override_is_observed() {
    let op = OverrideOp {
        schema: make_schema(),
        required: vec![],
    };
    let caps = op.supported_demands();
    assert!(caps.supports_forwarded_columns);
    assert!(!caps.supports_step_reached);
}

/// Collects the row counts of the batches it is given.
struct Rows(Vec<usize>);

impl Accumulator for Rows {
    fn update_batch(&mut self, batch: &Batch) -> Result<(), BqliteError> {
        self.0.push(batch.inner.num_rows());
        Ok(())
    }
}

#[test]
fn results_are_handed_to_an_accumulator_if_there_are_any() {
    let op = sum_op();
    let mut rows = Rows(vec![]);
    let mut state = op.create_state(&EntityId::Int(1));
    op.process_sub_batch(&mut state, &make_batch(vec![2, 3]));
    assert!(op.finish_entity_into(state, &mut rows).is_ok());
    let empty = op.create_state(&EntityId::Int(2));
    assert!(op.finish_entity_into(empty, &mut rows).is_ok());
    assert_eq!(rows.0, vec![1]);
}

#[test]
fn a_cancelled_token_guards_with_an_error() {
    let token = CancellationToken::new();
    assert!(CancellationToken::guard(token.is_cancelled()).is_ok());
    token.cancel();
    let err = CancellationToken::guard(token.is_cancelled()).unwrap_err();
    assert!(matches!(err, BqliteError::Cancelled));
    assert_eq!(err.message(), "query cancelled");
}

#[test]
fn an_entity_id_is_shown_as_text() {
    assert_eq!(EntityId::Int(-120).to_text(), "-120");
    assert_eq!(EntityId::Int(i64::MIN).to_text(), "-9223372036854775808");
    assert_eq!(EntityId::Int(0).to_text(), "0");
    assert_eq!(EntityId::String("u\u{e9}".to_string()).to_text(), "u\u{e9}");
}

#[test]
fn a_schema_refuses_two_columns_of_one_name() {
    let err = OperatorSchema::new(vec![
        ColumnDef::required("a", BqlType::Int),
        ColumnDef::required("b", BqlType::Int),
        ColumnDef::nullable("a", BqlType::String),
    ])
    .unwrap_err();
    assert!(matches!(err, BqliteError::Schema(_)));
    assert_eq!(err.message(), "duplicate column `a`");
}
