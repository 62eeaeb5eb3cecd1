//! The project operator.

use std::sync::Arc;
use std::sync::atomic::{AtomicUsize, Ordering};

use arrow::array::{ArrayRef, Int64Array};
use arrow::datatypes::{DataType, Field, Schema};
use arrow::record_batch::RecordBatch;

use bqlite_operators::columnar::Batch;
use bqlite_operators::error::BqliteError;
use bqlite_operators::operator::{CancellationToken, PhysicalOperator};
use bqlite_operators::project::ProjectOperator;
use bqlite_operators::schema::{BqlType, ColumnDef, OperatorSchema};

fn scalar_schema() -> OperatorSchema {
    OperatorSchema::new(vec![ColumnDef::required("value", BqlType::Int)]).unwrap()
}

fn make_batch(rows: Vec<i64>) -> Batch {
    let col: ArrayRef = Arc::new(Int64Array::from(rows));
    let schema = Schema::new(vec![Field::new("value", DataType::Int64, false)]);
    Batch { inner: RecordBatch::try_new(Arc::new(schema), vec![col]).unwrap() }
}

#[derive(Default, Clone)]
struct CallCounters {
    open: Arc<AtomicUsize>,
    close: Arc<AtomicUsize>,
}

impl CallCounters {
    fn opens(&self) -> usize {
        self.open.load(Ordering::SeqCst)
    }
    fn closes(&self) -> usize {
        self.close.load(Ordering::SeqCst)
    }
}

struct RecordingChild {
    schema: OperatorSchema,
    batches: Vec<Batch>,
    next_idx: usize,
    counters: CallCounters,
    cancel: CancellationToken,
    fail_next: bool,
}

impl RecordingChild {
    fn new(batches: Vec<Batch>) -> Self {
        Self {
            schema: scalar_schema(),
            batches,
            next_idx: 0,
            counters: CallCounters::default(),
            cancel: CancellationToken::new(),
            fail_next: false,
        }
    }

    fn with_counters(mut self, counters: CallCounters) -> Self {
        self.counters = counters;
        self
    }

    fn with_cancel(mut self, cancel: CancellationToken) -> Self {
        self.cancel = cancel;
        self
    }

    fn failing() -> Self {
        Self {
            schema: scalar_schema(),
            batches: vec![],
            next_idx: 0,
            counters: CallCounters::default(),
            cancel: CancellationToken::new(),
            fail_next: true,
        }
    }
}

impl PhysicalOperator for RecordingChild {
    fn output_schema(&self) -> &OperatorSchema {
        &self.schema
    }

    fn open(&mut self) -> Result<(), BqliteError> {
        self.counters.open.fetch_add(1, Ordering::SeqCst);
        Ok(())
    }

    fn next_batch(&mut self) -> Result<Option<Batch>, BqliteError> {
        if self.fail_next {
            return Err(BqliteError::Execution("boom".into()));
        }
        if self.cancel.is_cancelled() {
            return Err(BqliteError::Cancelled);
        }
        if self.next_idx >= self.batches.len() {
            return Ok(None);
        }
        let b = Batch { inner: self.batches[self.next_idx].inner.clone() };
        self.next_idx += 1;
        Ok(Some(b))
    }

    fn close(&mut self) -> Result<(), BqliteError> {
        self.counters.close.fetch_add(1, Ordering::SeqCst);
        Ok(())
    }
}

#[test]
fn output_schema_matches_child() {
    let child = RecordingChild::new(vec![]);
    let project = ProjectOperator::new(child);
    assert_eq!(project.output_schema().columns().len(), 1);
    assert_eq!(project.output_schema().columns()[0].name, "value");
}

#[test]
fn next_batch_forwards_child_batches_unchanged() {
    let batches = vec![make_batch(vec![1, 2, 3]), make_batch(vec![4])];
    let child = RecordingChild::new(batches);
    let mut project = ProjectOperator::new(child);

    let a = project.next_batch().unwrap().unwrap();
    assert_eq!(a.inner.num_rows(), 3);
    let b = project.next_batch().unwrap().unwrap();
    assert_eq!(b.inner.num_rows(), 1);
    assert!(project.next_batch().unwrap().is_none());
}

#[test]
fn lifecycle_forwards_to_child() {
    let counters = CallCounters::default();
    let child =
        RecordingChild::new(vec![make_batch(vec![1])]).with_counters(counters.clone());
    let mut project = ProjectOperator::new(child);

    project.open().unwrap();
    assert_eq!(counters.opens(), 1);

    assert!(project.next_batch().unwrap().is_some());
    assert!(project.next_batch().unwrap().is_none());

    project.close().unwrap();
    project.close().unwrap();
    assert_eq!(counters.closes(), 2);
}

#[test]
fn errors_propagate_from_child() {
    let child = RecordingChild::failing();
    let mut project = ProjectOperator::new(child);
    let err = project.next_batch().err().expect("child error must surface");
    assert!(matches!(err, BqliteError::Execution(_)), "{err:?}");
}

#[test]
fn cancellation_propagates_from_child() {
    let cancel = CancellationToken::new();
    let child = RecordingChild::new(vec![make_batch(vec![1])]).with_cancel(cancel.clone());
    let mut project = ProjectOperator::new(child);
    cancel.cancel();
    let err = project.next_batch().err().expect("cancelled");
    assert!(matches!(err, BqliteError::Cancelled), "{err:?}");
}

#[test]
fn child_accessor_returns_same_schema() {
    let child = RecordingChild::new(vec![]);
    let project = ProjectOperator::new(child);
    assert_eq!(
        project.child().output_schema().columns().len(),
        project.output_schema().columns().len()
    );
}

#[test]
fn trait_object_compiles() {
    let child = RecordingChild::new(vec![]);
    let project: Box<dyn PhysicalOperator> = Box::new(ProjectOperator::new(child));
    let _ = project;
}

#[test]
fn two_projections_pass_the_same_rows_on() {
    let child = RecordingChild::new(vec![make_batch(vec![1, 2]), make_batch(vec![3])]);
    let mut project = ProjectOperator::new(ProjectOperator::new(child));
    project.open().unwrap();
    let mut values: Vec<i64> = vec![];
    while let Some(batch) = project.next_batch().unwrap() {
        let column: &Int64Array = batch.inner.column(0).as_any().downcast_ref().unwrap();
        values.extend(column.values());
    }
    assert_eq!(values, vec![1, 2, 3]);
    project.close().unwrap();
}
