//! What the simulators make of the rows of a batch.
//!
//! The rows with an event type are the events, in their order. They are taken in one
//! after the other: all of them where every match is wanted, else those up to the first
//! that completes a match.

use vstd::prelude::*;

use super::bindings::BindingValueCache;
use super::nfa::{EventView, NfaModel, NfaSetup, PredicateCache, after_event, after_rows,
    event_columns};
use super::nfa_laws::after_events;
use super::step_counter::{StepModel, StepSetup, after_step_event, after_step_rows};
use super::step_laws::{StepInput, after_steps};
use crate::columnar::{BatchView, CellView, DataKind, FieldView, field_position, type_kind};

verus! {

/// The events of the first `n` rows.
pub open spec fn events_in(
    types: Seq<Option<Seq<char>>>,
    stamps: Seq<i64>,
    cache: PredicateCache,
    n: int,
) -> Seq<EventView>
    decreases n,
{
    if n <= 0 {
        Seq::empty()
    } else {
        let before = events_in(types, stamps, cache, n - 1);
        if types[n - 1] is Some {
            before.push(
                EventView {
                    event_type: types[n - 1]->0,
                    ts: stamps[n - 1],
                    row: n - 1,
                    cache,
                },
            )
        } else {
            before
        }
    }
}

/// The events of the first `n` rows, each with the values that its row binds.
pub open spec fn inputs_in(
    types: Seq<Option<Seq<char>>>,
    stamps: Seq<i64>,
    cache: PredicateCache,
    bindings: BindingValueCache,
    n: int,
) -> Seq<StepInput> {
    let events = events_in(types, stamps, cache, n);
    Seq::new(events.len(), |i: int| StepInput { event: events[i], bindings })
}

/// Whether taking in rows ends after `k` of `n`: after all of them, or where only the
/// first match is wanted and one is complete; and not earlier.
pub open spec fn ends_after(
    match_all: bool,
    found: spec_fn(int) -> nat,
    k: int,
    n: int,
) -> bool {
    &&& 0 <= k <= n
    &&& k < n ==> !match_all && found(k) > 0
    &&& forall|j: int| 0 <= j < k && !match_all ==> #[trigger] found(j) == 0
}

proof fn lemma_nfa_rows(
    setup: NfaSetup,
    m: NfaModel,
    types: Seq<Option<Seq<char>>>,
    stamps: Seq<i64>,
    cache: PredicateCache,
    row: int,
) -> (k: int)
    requires
        types.len() == stamps.len(),
        0 <= row <= stamps.len(),
        forall|j: int|
            0 <= j < row && !setup.match_all ==> (#[trigger] after_events(
                setup,
                m,
                events_in(types, stamps, cache, j),
            )).completions.len() == 0,
    ensures
        row <= k,
        after_rows(
            setup,
            after_events(setup, m, events_in(types, stamps, cache, row)),
            types,
            stamps,
            cache,
            row,
        ) == after_events(setup, m, events_in(types, stamps, cache, k)),
        k <= stamps.len(),
        k < stamps.len() ==> !setup.match_all && after_events(
            setup,
            m,
            events_in(types, stamps, cache, k),
        ).completions.len() > 0,
        forall|j: int|
            0 <= j < k && !setup.match_all ==> (#[trigger] after_events(
                setup,
                m,
                events_in(types, stamps, cache, j),
            )).completions.len() == 0,
    decreases stamps.len() - row,
{
    let here = after_events(setup, m, events_in(types, stamps, cache, row));
    if row >= stamps.len() || (!setup.match_all && here.completions.len() > 0) {
        row
    } else {
        let events = events_in(types, stamps, cache, row);
        let more = events_in(types, stamps, cache, row + 1);
        if types[row] is Some {
            let ev = EventView { event_type: types[row]->0, ts: stamps[row], row, cache };
            assert(more.drop_last() =~= events);
            assert(more.last() == ev);
            assert(after_events(setup, m, more) == after_event(setup, here, ev));
        }
        lemma_nfa_rows(setup, m, types, stamps, cache, row + 1)
    }
}

/// The automaton takes in the events of a batch one after the other, up to the first that
/// completes a match where only the first match is wanted.
pub proof fn theorem_nfa_rows(
    setup: NfaSetup,
    m: NfaModel,
    types: Seq<Option<Seq<char>>>,
    stamps: Seq<i64>,
    cache: PredicateCache,
)
    requires
        types.len() == stamps.len(),
    ensures
        exists|k: int|
            #![trigger events_in(types, stamps, cache, k)]
            ends_after(
                setup.match_all,
                |j: int|
                    after_events(
                        setup,
                        m,
                        events_in(types, stamps, cache, j),
                    ).completions.len(),
                k,
                stamps.len() as int,
            ) && after_rows(setup, m, types, stamps, cache, 0) == after_events(
                setup,
                m,
                events_in(types, stamps, cache, k),
            ),
{
    assert(after_events(setup, m, events_in(types, stamps, cache, 0)) == m);
    let k = lemma_nfa_rows(setup, m, types, stamps, cache, 0);
    let found = |j: int|
        after_events(setup, m, events_in(types, stamps, cache, j)).completions.len();
    assert forall|j: int| 0 <= j < k && !setup.match_all implies #[trigger] found(j) == 0 by {}
    assert(ends_after(setup.match_all, found, k, stamps.len() as int));
    let _ = events_in(types, stamps, cache, k);
}

proof fn lemma_step_rows(
    setup: StepSetup,
    m: StepModel,
    types: Seq<Option<Seq<char>>>,
    stamps: Seq<i64>,
    cache: PredicateCache,
    bindings: BindingValueCache,
    row: int,
) -> (k: int)
    requires
        types.len() == stamps.len(),
        0 <= row <= stamps.len(),
        forall|j: int|
            0 <= j < row && !setup.match_all ==> (#[trigger] after_steps(
                setup,
                m,
                inputs_in(types, stamps, cache, bindings, j),
            )).completions.len() == 0,
    ensures
        row <= k,
        after_step_rows(
            setup,
            after_steps(setup, m, inputs_in(types, stamps, cache, bindings, row)),
            types,
            stamps,
            cache,
            bindings,
            row,
        ) == after_steps(setup, m, inputs_in(types, stamps, cache, bindings, k)),
        k <= stamps.len(),
        k < stamps.len() ==> !setup.match_all && after_steps(
            setup,
            m,
            inputs_in(types, stamps, cache, bindings, k),
        ).completions.len() > 0,
        forall|j: int|
            0 <= j < k && !setup.match_all ==> (#[trigger] after_steps(
                setup,
                m,
                inputs_in(types, stamps, cache, bindings, j),
            )).completions.len() == 0,
    decreases stamps.len() - row,
{
    let here = after_steps(setup, m, inputs_in(types, stamps, cache, bindings, row));
    if row >= stamps.len() || (!setup.match_all && here.completions.len() > 0) {
        row
    } else {
        let inputs = inputs_in(types, stamps, cache, bindings, row);
        let more = inputs_in(types, stamps, cache, bindings, row + 1);
        if types[row] is Some {
            let ev = EventView { event_type: types[row]->0, ts: stamps[row], row, cache };
            assert(more.drop_last() =~= inputs);
            assert(more.last() == (StepInput { event: ev, bindings }));
            assert(after_steps(setup, m, more) == after_step_event(setup, here, ev, bindings));
        } else {
            assert(more =~= inputs);
        }
        lemma_step_rows(setup, m, types, stamps, cache, bindings, row + 1)
    }
}

/// The step counter takes in the events of a batch one after the other, up to the first
/// that completes a match where only the first match is wanted.
pub proof fn theorem_step_rows(
    setup: StepSetup,
    m: StepModel,
    types: Seq<Option<Seq<char>>>,
    stamps: Seq<i64>,
    cache: PredicateCache,
    bindings: BindingValueCache,
)
    requires
        types.len() == stamps.len(),
    ensures
        exists|k: int|
            #![trigger inputs_in(types, stamps, cache, bindings, k)]
            ends_after(
                setup.match_all,
                |j: int|
                    after_steps(
                        setup,
                        m,
                        inputs_in(types, stamps, cache, bindings, j),
                    ).completions.len(),
                k,
                stamps.len() as int,
            ) && after_step_rows(setup, m, types, stamps, cache, bindings, 0) == after_steps(
                setup,
                m,
                inputs_in(types, stamps, cache, bindings, k),
            ),
{
    assert(after_steps(setup, m, inputs_in(types, stamps, cache, bindings, 0)) == m);
    let k = lemma_step_rows(setup, m, types, stamps, cache, bindings, 0);
    let found = |j: int|
        after_steps(
            setup,
            m,
            inputs_in(types, stamps, cache, bindings, j),
        ).completions.len();
    assert forall|j: int| 0 <= j < k && !setup.match_all implies #[trigger] found(j) == 0 by {}
    assert(ends_after(setup.match_all, found, k, stamps.len() as int));
    let _ = inputs_in(types, stamps, cache, bindings, k);
}

/// Whether a column of a batch is the first of a name.
pub open spec fn is_first_named(b: BatchView, name: Seq<char>, i: int) -> bool {
    &&& 0 <= i < b.fields.len()
    &&& b.fields[i].name == name
    &&& forall|j: int| 0 <= j < i ==> (#[trigger] b.fields[j]).name != name
}

proof fn lemma_field_position(fields: Seq<FieldView>, name: Seq<char>)
    ensures
        0 <= field_position(fields, name) <= fields.len(),
        field_position(fields, name) < fields.len() ==> fields[field_position(fields, name)].name
            == name,
        forall|j: int| 0 <= j < field_position(fields, name) ==> (#[trigger] fields[j]).name != name,
    decreases fields.len(),
{
    if fields.len() > 0 && fields[0].name != name {
        let rest = fields.drop_first();
        lemma_field_position(rest, name);
        assert forall|j: int| 0 <= j < field_position(fields, name) implies (
        #[trigger] fields[j]).name != name by {
            if j > 0 {
                assert(rest[j - 1] == fields[j]);
            }
        }
    }
}

/// Events are read from the columns that have the wanted names, the types from a text column
/// and the times from one of times or of integers. A batch without rows, without one of the
/// columns or with other types of data has no events.
pub proof fn theorem_event_columns(
    b: BatchView,
    event_name: Seq<char>,
    time_name: Seq<char>,
    i: int,
    j: int,
)
    ensures
        is_first_named(b, event_name, i) && is_first_named(b, time_name, j) ==> {
            let readable = b.rows > 0 && type_kind(b.columns[i].data_type) == DataKind::Utf8View
                && (type_kind(b.columns[j].data_type) == DataKind::Int64 || type_kind(
                b.columns[j].data_type,
            ) == DataKind::TimestampNs);
            match event_columns(b, event_name, time_name) {
                Some((types, stamps)) => {
                    &&& readable
                    &&& stamps == b.columns[j].raw
                    &&& types.len() == b.columns[i].cells.len()
                    &&& forall|r: int|
                        0 <= r < types.len() ==> match b.columns[i].cells[r] {
                            Some(CellView::Str(text)) => #[trigger] types[r] == Some(text),
                            _ => types[r] is None,
                        }
                },
                None => !readable,
            }
        },
        event_columns(b, event_name, time_name) is Some ==> {
            &&& exists|k: int| 0 <= k < b.fields.len() && (#[trigger] b.fields[k]).name == event_name
            &&& exists|k: int| 0 <= k < b.fields.len() && (#[trigger] b.fields[k]).name == time_name
        },
{
    lemma_field_position(b.fields, event_name);
    lemma_field_position(b.fields, time_name);
    let p = field_position(b.fields, event_name);
    let q = field_position(b.fields, time_name);
    if is_first_named(b, event_name, i) {
        if p < i {
            assert(b.fields[p].name != event_name);
        }
        assert(p == i);
    }
    if is_first_named(b, time_name, j) {
        if q < j {
            assert(b.fields[q].name != time_name);
        }
        assert(q == j);
    }
}

} // verus!
