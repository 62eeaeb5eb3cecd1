//! The traits that operators implement, and cancellation.

use std::sync::Arc;
use std::sync::atomic::{AtomicBool, Ordering};

use vstd::prelude::*;

use crate::columnar::Batch;
use crate::error::{BqliteError, QueryWarning};
use crate::schema::OperatorSchema;
use crate::value::EntityId;

verus! {

/// The number of rows that operators aim at in one output batch.
pub const DEFAULT_OUTPUT_BATCH_SIZE: usize = 65_536;

/// A cancellation flag that the holders of its copies share. It is a hint: any
/// holder may set it at any time, so which value a read of it returns is not known
/// beforehand.
#[derive(Debug)]
pub struct CancellationToken {
    pub cancelled: Arc<AtomicBool>,
}

impl CancellationToken {
    /// Whether the flag is one that was made unset, by `AtomicBool::new`.
    pub open spec fn made_unset(&self) -> bool {
        call_ensures(AtomicBool::new, (false,), *self.cancelled)
    }

    /// Whether a read of the flag has returned `v`, by `AtomicBool::load`.
    pub open spec fn has_read(&self, v: bool) -> bool {
        call_ensures(AtomicBool::load, (&*self.cancelled, Ordering::Relaxed), v)
    }

    /// Whether the flag has been set, by `AtomicBool::store`.
    pub open spec fn has_been_set(&self) -> bool {
        call_ensures(AtomicBool::store, (&*self.cancelled, true, Ordering::Relaxed), ())
    }

    /// A new token, which is not cancelled.
    pub fn new() -> (r: Self)
        ensures
            r.made_unset(),
    {
        CancellationToken { cancelled: Arc::new(AtomicBool::new(false)) }
    }

    /// Whether any holder of the token has cancelled it.
    pub fn is_cancelled(&self) -> (r: bool)
        ensures
            self.has_read(r),
    {
        self.cancelled.load(Ordering::Relaxed)
    }

    /// Cancels the token for all its holders.
    pub fn cancel(&self)
        ensures
            self.has_been_set(),
    {
        self.cancelled.store(true, Ordering::Relaxed);
    }

    /// Fails where a read of the token returned that it is cancelled.
    pub fn guard(cancelled: bool) -> (r: Result<(), BqliteError>)
        ensures
            cancelled ==> r == Err::<(), BqliteError>(BqliteError::Cancelled),
            !cancelled ==> r == Ok::<(), BqliteError>(()),
    {
        if cancelled {
            Err(BqliteError::Cancelled)
        } else {
            Ok(())
        }
    }
}

impl Clone for CancellationToken {
    /// Another holder of the same flag.
    fn clone(&self) -> (r: Self)
        ensures
            r == *self,
    {
        CancellationToken { cancelled: self.cancelled.clone() }
    }
}

impl Default for CancellationToken {
    /// A new token, which is not cancelled.
    fn default() -> (r: Self)
        ensures
            r.made_unset(),
    {
        CancellationToken::new()
    }
}

/// What an operator can provide to the operators above it.
#[derive(Debug, Clone, Copy, PartialEq, Eq, Structural)]
pub struct DemandCapabilities {
    pub supports_step_reached: bool,
    pub supports_match_count: bool,
    pub supports_full_detail: bool,
    pub supports_aggregation_fusion: bool,
    pub supports_step_property_forwarding: bool,
    pub supports_forwarded_columns: bool,
    pub supports_eager_group_emit: bool,
}

/// No capability at all.
pub open spec fn no_capabilities() -> DemandCapabilities {
    DemandCapabilities {
        supports_step_reached: false,
        supports_match_count: false,
        supports_full_detail: false,
        supports_aggregation_fusion: false,
        supports_step_property_forwarding: false,
        supports_forwarded_columns: false,
        supports_eager_group_emit: false,
    }
}

impl DemandCapabilities {
    /// No capability at all.
    pub fn none() -> (r: Self)
        ensures
            r == no_capabilities(),
    {
        DemandCapabilities {
            supports_step_reached: false,
            supports_match_count: false,
            supports_full_detail: false,
            supports_aggregation_fusion: false,
            supports_step_property_forwarding: false,
            supports_forwarded_columns: false,
            supports_eager_group_emit: false,
        }
    }
}

/// A pull-based operator. It is opened once, pulled until it returns `None` or
/// fails, and closed. Closing may happen more than once.
pub trait PhysicalOperator: Send {
    /// The schema of every batch that the operator returns.
    fn output_schema(&self) -> &OperatorSchema;

    /// Acquires what the operator needs. Does nothing unless implemented.
    fn open(&mut self) -> (r: Result<(), BqliteError>)
        default_ensures
            r is Ok,
            &*final(self) == &*old(self),
    {
        Ok(())
    }

    /// The next batch, or `None` at the end and ever after.
    fn next_batch(&mut self) -> Result<Option<Batch>, BqliteError>;

    /// Releases what the operator holds. Does nothing unless implemented.
    fn close(&mut self) -> (r: Result<(), BqliteError>)
        default_ensures
            r is Ok,
            &*final(self) == &*old(self),
    {
        Ok(())
    }
}

/// Takes in the results of entities.
pub trait Accumulator {
    /// Takes in a batch.
    fn update_batch(&mut self, batch: &Batch) -> Result<(), BqliteError>;
}

/// A stateful operator that works one entity at a time. The operator itself does
/// not change; what it knows of an entity is in its state.
pub trait EntityOperator: Send + Sync {
    /// What the operator knows of one entity.
    type State: Send;

    /// Whether the operator can take in a sub-batch in a state. It always can unless
    /// implemented.
    open spec fn accepts(&self, state: &Self::State, batch: &Batch) -> bool {
        true
    }

    /// Whether the operator can report the results of a state. It always can unless
    /// implemented.
    open spec fn can_finish(&self, state: &Self::State) -> bool {
        true
    }

    /// Whether the operator can hand the results of a state to an accumulator. It always
    /// can unless implemented.
    open spec fn can_feed(&self, state: &Self::State) -> bool {
        true
    }

    /// The state of a new entity.
    fn create_state(&self, entity_id: &EntityId) -> Self::State;

    /// The schema of every batch that the operator returns.
    fn output_schema(&self) -> &OperatorSchema;

    /// Takes in a sub-batch of one entity, sorted by time.
    fn process_sub_batch(&self, state: &mut Self::State, batch: &Batch)
        requires
            self.accepts(old(state), batch),
    ;

    /// The results of an entity, or `None` when there are none.
    fn finish_entity(&self, state: Self::State) -> Option<Batch>
        requires
            self.can_finish(&state),
    ;

    /// Hands the results of an entity to an accumulator, in place of
    /// [`finish_entity`](Self::finish_entity). An operator without a fused
    /// aggregate uses [`feed_results`].
    fn finish_entity_into<A: Accumulator>(&self, state: Self::State, accumulator: &mut A) -> Result<
        (),
        BqliteError,
    >
        requires
            self.can_feed(&state),
    ;

    /// The warnings that have come up since the last call. None unless
    /// implemented.
    fn take_pending_warnings(&self, state: &mut Self::State, entity_id: &EntityId) -> (r: Vec<
        QueryWarning,
    >)
        default_ensures
            r@.len() == 0,
            *final(state) == *old(state),
    {
        Vec::new()
    }

    /// The input columns that the operator reads.
    fn required_columns(&self) -> &[String];

    /// What the operator can provide. Nothing unless implemented.
    fn supported_demands(&self) -> (r: DemandCapabilities)
        default_ensures
            r == no_capabilities(),
    {
        DemandCapabilities::none()
    }
}

/// Hands the batch of an entity's results, if there is one, to an accumulator.
pub fn feed_results<O: EntityOperator, A: Accumulator>(
    operator: &O,
    state: O::State,
    accumulator: &mut A,
) -> (r: Result<(), BqliteError>)
    requires
        operator.can_finish(&state),
    ensures
        exists|b: Option<Batch>|
            #![trigger call_ensures(O::finish_entity, (operator, state), b)]
            call_ensures(O::finish_entity, (operator, state), b) && match b {
                Some(batch) => exists|m: &mut A|
                    *m == *old(accumulator) && *final(m) == *final(accumulator)
                        && #[trigger] call_ensures(A::update_batch, (m, &batch), r),
                None => r is Ok && *final(accumulator) == *old(accumulator),
            },
{
    match operator.finish_entity(state) {
        Some(batch) => accumulator.update_batch(&batch),
        None => Ok(()),
    }
}

} // verus!
