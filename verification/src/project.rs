//! The project operator, which passes the batches of its child on unchanged.

use vstd::prelude::*;

use crate::columnar::Batch;
use crate::error::BqliteError;
use crate::operator::PhysicalOperator;
use crate::schema::OperatorSchema;

verus! {

/// Passes the batches of a child operator on unchanged.
#[derive(Debug)]
pub struct ProjectOperator<C: PhysicalOperator> {
    pub child: C,
}

impl<C: PhysicalOperator> ProjectOperator<C> {
    /// Wraps a child, whose lifecycle the operator then controls.
    pub fn new(child: C) -> (r: Self)
        ensures
            r.child == child,
    {
        ProjectOperator { child }
    }

    /// The wrapped child.
    pub fn child(&self) -> (r: &C)
        ensures
            *r == self.child,
    {
        &self.child
    }
}

impl<C: PhysicalOperator> PhysicalOperator for ProjectOperator<C> {
    /// The child's schema.
    fn output_schema(&self) -> (r: &OperatorSchema)
        ensures
            call_ensures(C::output_schema, (&self.child,), r),
    {
        self.child.output_schema()
    }

    /// Opens the child.
    fn open(&mut self) -> (r: Result<(), BqliteError>)
        ensures
            exists|m: &mut C|
                *m == old(self).child && *final(m) == final(self).child && #[trigger] call_ensures(
                    C::open,
                    (m,),
                    r,
                ),
    {
        self.child.open()
    }

    /// The child's next batch.
    fn next_batch(&mut self) -> (r: Result<Option<Batch>, BqliteError>)
        ensures
            exists|m: &mut C|
                *m == old(self).child && *final(m) == final(self).child && #[trigger] call_ensures(
                    C::next_batch,
                    (m,),
                    r,
                ),
    {
        self.child.next_batch()
    }

    /// Closes the child.
    fn close(&mut self) -> (r: Result<(), BqliteError>)
        ensures
            exists|m: &mut C|
                *m == old(self).child && *final(m) == final(self).child && #[trigger] call_ensures(
                    C::close,
                    (m,),
                    r,
                ),
    {
        self.child.close()
    }
}

} // verus!
