//! The compiled form of a pattern.

use vstd::prelude::*;

use crate::expr::CompiledExpr;
use crate::text::text_eq;

verus! {

/// A forward transition: taken by an event of type `event_type` on which every
/// predicate holds.
#[derive(Debug)]
pub struct Transition {
    pub event_type: String,
    pub predicates: Vec<CompiledExpr>,
    /// Variables that this transition binds.
    pub bind_variables: Vec<usize>,
    /// Variables that must equal the value already bound.
    pub check_variables: Vec<usize>,
    /// The state that the transition leads to.
    pub target: u16,
}

/// A poison transition: kills the candidates of its state.
#[derive(Debug)]
pub struct PoisonTransition {
    pub event_type: String,
    pub predicates: Vec<CompiledExpr>,
}

/// One state of the automaton.
#[derive(Debug)]
pub struct NfaState {
    pub transitions: Vec<Transition>,
    pub poison_transitions: Vec<PoisonTransition>,
}

/// The shape of a pattern, which decides how it is executed.
#[derive(Debug, Clone, Copy, PartialEq, Eq, Structural)]
pub enum PatternClass {
    LinearSimple,
    LinearWithNegation,
    LinearWithBindings,
    LinearFull,
    LinearImmediate,
    GeneralNfa,
}

/// A pattern variable and the column it is read from.
#[derive(Debug)]
pub struct VariableBindingDef {
    pub name: String,
    pub source_column: String,
    pub column_index: usize,
    pub bind_step: u16,
}

/// A half-open range of timestamps.
#[derive(Debug, Clone, Copy, PartialEq, Eq, Structural)]
pub struct TimeRange {
    /// The first timestamp inside.
    pub start: i64,
    /// The first timestamp past the end.
    pub end: i64,
}

/// Whether a sequence may begin at `ts`: anywhere when no range is set.
pub open spec fn may_enter(range: Option<TimeRange>, ts: i64) -> bool {
    match range {
        Some(r) => r.start <= ts < r.end,
        None => true,
    }
}

/// Whether a sequence may begin at `ts`.
pub fn can_enter(range: &Option<TimeRange>, ts: i64) -> (r: bool)
    ensures
        r == may_enter(*range, ts),
        r <==> (range matches Some(x) ==> x.start <= ts && ts < x.end),
{
    match range {
        Some(r) => r.start <= ts && ts < r.end,
        None => true,
    }
}

/// Anchor-relative time brackets, in nanoseconds.
#[derive(Debug)]
pub struct BracketSpec {
    pub durations: Vec<i64>,
    pub cumulative: bool,
}

/// A compiled pattern.
#[derive(Debug)]
pub struct CompiledNfa {
    pub states: Vec<NfaState>,
    pub accept_state: u16,
    /// The event types that occur on any transition.
    pub relevant_event_types: Vec<String>,
    pub pattern_class: PatternClass,
    pub variable_bindings: Vec<VariableBindingDef>,
    /// The longest time between the first and the last step of a match.
    pub global_window: Option<i64>,
    /// Whether matching is limited to one session.
    pub session_window: bool,
    /// Whether unfinished candidates are reported too.
    pub emit_all: bool,
    pub brackets: Option<BracketSpec>,
    /// The logical step that each state stands for.
    pub state_to_step: Vec<u8>,
}

/// The number of predicates on the first `t` transitions.
pub open spec fn transition_predicates(transitions: Seq<Transition>, t: int) -> int
    decreases t,
{
    if t <= 0 {
        0
    } else {
        transition_predicates(transitions, t - 1) + transitions[t - 1].predicates@.len()
    }
}

/// The number of predicates on the first `q` poison transitions.
pub open spec fn poison_predicates(poisons: Seq<PoisonTransition>, q: int) -> int
    decreases q,
{
    if q <= 0 {
        0
    } else {
        poison_predicates(poisons, q - 1) + poisons[q - 1].predicates@.len()
    }
}

impl NfaState {
    /// The number of predicates on forward transitions.
    pub open spec fn forward_count(&self) -> int {
        transition_predicates(self.transitions@, self.transitions@.len() as int)
    }

    /// The number of predicates on poison transitions.
    pub open spec fn poison_count(&self) -> int {
        poison_predicates(self.poison_transitions@, self.poison_transitions@.len() as int)
    }
}

/// The number of predicates on the first `s` states.
pub open spec fn state_predicates(states: Seq<NfaState>, s: int) -> int
    decreases s,
{
    if s <= 0 {
        0
    } else {
        state_predicates(states, s - 1) + states[s - 1].forward_count()
            + states[s - 1].poison_count()
    }
}

/// The predicates on the first `t` transitions.
pub open spec fn transition_exprs(transitions: Seq<Transition>, t: int) -> Seq<CompiledExpr>
    decreases t,
{
    if t <= 0 {
        Seq::empty()
    } else {
        transition_exprs(transitions, t - 1) + transitions[t - 1].predicates@
    }
}

/// The predicates on the first `q` poison transitions.
pub open spec fn poison_exprs(poisons: Seq<PoisonTransition>, q: int) -> Seq<CompiledExpr>
    decreases q,
{
    if q <= 0 {
        Seq::empty()
    } else {
        poison_exprs(poisons, q - 1) + poisons[q - 1].predicates@
    }
}

/// The predicates on the first `s` states, state by state, forward transitions first.
pub open spec fn state_exprs(states: Seq<NfaState>, s: int) -> Seq<CompiledExpr>
    decreases s,
{
    if s <= 0 {
        Seq::empty()
    } else {
        let state = states[s - 1];
        state_exprs(states, s - 1) + transition_exprs(
            state.transitions@,
            state.transitions@.len() as int,
        ) + poison_exprs(state.poison_transitions@, state.poison_transitions@.len() as int)
    }
}

proof fn lemma_transition_exprs(transitions: Seq<Transition>, n: int, t: int, p: int)
    requires
        0 <= n <= transitions.len(),
    ensures
        transition_exprs(transitions, n).len() == transition_predicates(transitions, n),
        0 <= t < n && 0 <= p < transitions[t].predicates@.len() ==> {
            let i = transition_predicates(transitions, t) + p;
            &&& 0 <= i < transition_exprs(transitions, n).len()
            &&& transition_exprs(transitions, n)[i] == transitions[t].predicates@[p]
        },
    decreases n,
{
    if n > 0 {
        lemma_transition_exprs(transitions, n - 1, t, p);
        lemma_transition_predicates_bound(transitions, 0, n - 1);
    }
}

proof fn lemma_poison_exprs(poisons: Seq<PoisonTransition>, n: int, q: int, p: int)
    requires
        0 <= n <= poisons.len(),
    ensures
        poison_exprs(poisons, n).len() == poison_predicates(poisons, n),
        0 <= q < n && 0 <= p < poisons[q].predicates@.len() ==> {
            let i = poison_predicates(poisons, q) + p;
            &&& 0 <= i < poison_exprs(poisons, n).len()
            &&& poison_exprs(poisons, n)[i] == poisons[q].predicates@[p]
        },
    decreases n,
{
    if n > 0 {
        lemma_poison_exprs(poisons, n - 1, q, p);
        lemma_poison_predicates_bound(poisons, 0, n - 1);
    }
}

proof fn lemma_state_exprs(states: Seq<NfaState>, n: int, s: int, i: int)
    requires
        0 <= n <= states.len(),
    ensures
        state_exprs(states, n).len() == state_predicates(states, n),
        0 <= s < n && 0 <= i < states[s].forward_count() + states[s].poison_count() ==> {
            let st = states[s];
            let all = transition_exprs(st.transitions@, st.transitions@.len() as int)
                + poison_exprs(st.poison_transitions@, st.poison_transitions@.len() as int);
            &&& 0 <= state_predicates(states, s) + i < state_exprs(states, n).len()
            &&& state_exprs(states, n)[state_predicates(states, s) + i] == all[i]
        },
    decreases n,
{
    if n > 0 {
        let st = states[n - 1];
        lemma_state_exprs(states, n - 1, s, i);
        lemma_state_predicates_bound(states, 0, n - 1);
        lemma_transition_exprs(st.transitions@, st.transitions@.len() as int, 0, 0);
        lemma_poison_exprs(st.poison_transitions@, st.poison_transitions@.len() as int, 0, 0);
        lemma_transition_predicates_bound(st.transitions@, 0, st.transitions@.len() as int);
        lemma_poison_predicates_bound(
            st.poison_transitions@,
            0,
            st.poison_transitions@.len() as int,
        );
    }
}

/// What some references refer to.
pub open spec fn referred(list: Seq<&CompiledExpr>) -> Seq<CompiledExpr> {
    Seq::new(list.len(), |i: int| *list[i])
}

/// Adds references to all expressions of a list.
fn push_all<'a>(out: &mut Vec<&'a CompiledExpr>, list: &'a Vec<CompiledExpr>)
    ensures
        referred(final(out)@) == referred(old(out)@) + list@,
{
    let ghost before = referred(out@);
    let mut i: usize = 0;
    assert(referred(out@) =~= before + list@.take(0));
    while i < list.len()
        invariant
            i <= list@.len(),
            referred(out@) == before + list@.take(i as int),
        decreases list@.len() - i,
    {
        let ghost out0 = referred(out@);
        out.push(&list[i]);
        proof {
            assert(referred(out@) =~= out0.push(list@[i as int]));
            assert(list@.take(i + 1) =~= list@.take(i as int).push(list@[i as int]));
            assert(referred(out@) =~= before + list@.take(i + 1));
        }
        i = i + 1;
    }
    assert(list@.take(list@.len() as int) =~= list@);
}

pub proof fn lemma_transition_predicates_bound(transitions: Seq<Transition>, i: int, j: int)
    requires
        0 <= i <= j <= transitions.len(),
    ensures
        0 <= transition_predicates(transitions, i) <= transition_predicates(transitions, j),
    decreases j,
{
    if i < j {
        lemma_transition_predicates_bound(transitions, i, j - 1);
    } else if i > 0 {
        lemma_transition_predicates_bound(transitions, i - 1, j - 1);
    }
}

pub proof fn lemma_poison_predicates_bound(poisons: Seq<PoisonTransition>, i: int, j: int)
    requires
        0 <= i <= j <= poisons.len(),
    ensures
        0 <= poison_predicates(poisons, i) <= poison_predicates(poisons, j),
    decreases j,
{
    if i < j {
        lemma_poison_predicates_bound(poisons, i, j - 1);
    } else if i > 0 {
        lemma_poison_predicates_bound(poisons, i - 1, j - 1);
    }
}

pub proof fn lemma_state_predicates_bound(states: Seq<NfaState>, i: int, j: int)
    requires
        0 <= i <= j <= states.len(),
    ensures
        0 <= state_predicates(states, i) <= state_predicates(states, j),
    decreases j,
{
    if j > 0 {
        let st = states[j - 1];
        lemma_transition_predicates_bound(st.transitions@, 0, st.transitions@.len() as int);
        lemma_poison_predicates_bound(
            st.poison_transitions@,
            0,
            st.poison_transitions@.len() as int,
        );
        if i < j {
            lemma_state_predicates_bound(states, i, j - 1);
        } else {
            lemma_state_predicates_bound(states, i - 1, j - 1);
        }
    }
}

impl CompiledNfa {
    /// The number of predicates in the whole pattern.
    pub open spec fn predicate_count(&self) -> int {
        state_predicates(self.states@, self.states@.len() as int)
    }

    /// The position of predicate `p` of forward transition `t` of state `s` when
    /// all predicates are listed state by state, forward transitions first.
    pub open spec fn forward_index(&self, s: int, t: int, p: int) -> int {
        state_predicates(self.states@, s) + transition_predicates(self.states@[s].transitions@, t)
            + p
    }

    /// The position of predicate `p` of poison transition `q` of state `s` in
    /// the same list.
    pub open spec fn poison_index(&self, s: int, q: int, p: int) -> int {
        state_predicates(self.states@, s) + self.states@[s].forward_count() + poison_predicates(
            self.states@[s].poison_transitions@,
            q,
        ) + p
    }

    pub proof fn lemma_forward_index_bound(&self, s: int, t: int, p: int)
        requires
            0 <= s < self.states@.len(),
            0 <= t < self.states@[s].transitions@.len(),
            0 <= p < self.states@[s].transitions@[t].predicates@.len(),
        ensures
            0 <= self.forward_index(s, t, p) < self.predicate_count(),
    {
        let st = self.states@[s];
        lemma_state_predicates_bound(self.states@, 0, s);
        lemma_state_predicates_bound(self.states@, s + 1, self.states@.len() as int);
        lemma_transition_predicates_bound(st.transitions@, 0, t);
        lemma_transition_predicates_bound(st.transitions@, t + 1, st.transitions@.len() as int);
        lemma_poison_predicates_bound(
            st.poison_transitions@,
            0,
            st.poison_transitions@.len() as int,
        );
    }

    pub proof fn lemma_poison_index_bound(&self, s: int, q: int, p: int)
        requires
            0 <= s < self.states@.len(),
            0 <= q < self.states@[s].poison_transitions@.len(),
            0 <= p < self.states@[s].poison_transitions@[q].predicates@.len(),
        ensures
            0 <= self.poison_index(s, q, p) < self.predicate_count(),
    {
        let st = self.states@[s];
        lemma_state_predicates_bound(self.states@, 0, s);
        lemma_state_predicates_bound(self.states@, s + 1, self.states@.len() as int);
        lemma_transition_predicates_bound(st.transitions@, 0, st.transitions@.len() as int);
        lemma_poison_predicates_bound(st.poison_transitions@, 0, q);
        lemma_poison_predicates_bound(
            st.poison_transitions@,
            q + 1,
            st.poison_transitions@.len() as int,
        );
    }

    /// All predicates, state by state, forward transitions first. This is the order in
    /// which their outcomes are handed to a simulator.
    pub fn predicates(&self) -> (r: Vec<&CompiledExpr>)
        ensures
            referred(r@) == state_exprs(self.states@, self.states@.len() as int),
            r@.len() == self.predicate_count(),
    {
        let mut out: Vec<&CompiledExpr> = Vec::new();
        let mut s: usize = 0;
        assert(referred(out@) =~= state_exprs(self.states@, 0));
        while s < self.states.len()
            invariant
                s <= self.states@.len(),
                referred(out@) == state_exprs(self.states@, s as int),
            decreases self.states@.len() - s,
        {
            let state: &NfaState = &self.states[s];
            let ghost before = referred(out@);
            let mut t: usize = 0;
            assert(referred(out@) =~= before + transition_exprs(state.transitions@, 0));
            while t < state.transitions.len()
                invariant
                    t <= state.transitions@.len(),
                    referred(out@) == before + transition_exprs(state.transitions@, t as int),
                decreases state.transitions@.len() - t,
            {
                push_all(&mut out, &state.transitions[t].predicates);
                assert(referred(out@) =~= before + transition_exprs(state.transitions@, t + 1));
                t = t + 1;
            }
            let ghost forward = referred(out@);
            let mut q: usize = 0;
            assert(referred(out@) =~= forward + poison_exprs(state.poison_transitions@, 0));
            while q < state.poison_transitions.len()
                invariant
                    q <= state.poison_transitions@.len(),
                    referred(out@) == forward + poison_exprs(
                        state.poison_transitions@,
                        q as int,
                    ),
                decreases state.poison_transitions@.len() - q,
            {
                push_all(&mut out, &state.poison_transitions[q].predicates);
                assert(referred(out@) =~= forward + poison_exprs(
                    state.poison_transitions@,
                    q + 1,
                ));
                q = q + 1;
            }
            s = s + 1;
        }
        proof {
            lemma_state_exprs(self.states@, self.states@.len() as int, 0, 0);
            assert(referred(out@).len() == out@.len());
        }
        out
    }

    /// In the list of all predicates, the predicate of a forward transition is where the
    /// simulators look for its outcome.
    pub proof fn theorem_forward_listed(&self, s: int, t: int, p: int)
        requires
            0 <= s < self.states@.len(),
            0 <= t < self.states@[s].transitions@.len(),
            0 <= p < self.states@[s].transitions@[t].predicates@.len(),
        ensures
            0 <= self.forward_index(s, t, p) < self.predicate_count(),
            state_exprs(self.states@, self.states@.len() as int)[self.forward_index(s, t, p)]
                == self.states@[s].transitions@[t].predicates@[p],
    {
        let st = self.states@[s];
        let i = transition_predicates(st.transitions@, t) + p;
        self.lemma_forward_index_bound(s, t, p);
        lemma_transition_exprs(st.transitions@, st.transitions@.len() as int, t, p);
        lemma_poison_predicates_bound(
            st.poison_transitions@,
            0,
            st.poison_transitions@.len() as int,
        );
        lemma_state_exprs(self.states@, self.states@.len() as int, s, i);
    }

    /// In the list of all predicates, the predicate of a poison transition is where the
    /// simulators look for its outcome.
    pub proof fn theorem_poison_listed(&self, s: int, q: int, p: int)
        requires
            0 <= s < self.states@.len(),
            0 <= q < self.states@[s].poison_transitions@.len(),
            0 <= p < self.states@[s].poison_transitions@[q].predicates@.len(),
        ensures
            0 <= self.poison_index(s, q, p) < self.predicate_count(),
            state_exprs(self.states@, self.states@.len() as int)[self.poison_index(s, q, p)]
                == self.states@[s].poison_transitions@[q].predicates@[p],
    {
        let st = self.states@[s];
        let i = st.forward_count() + poison_predicates(st.poison_transitions@, q) + p;
        self.lemma_poison_index_bound(s, q, p);
        lemma_transition_exprs(st.transitions@, st.transitions@.len() as int, 0, 0);
        lemma_transition_predicates_bound(st.transitions@, 0, st.transitions@.len() as int);
        lemma_poison_exprs(st.poison_transitions@, st.poison_transitions@.len() as int, q, p);
        lemma_poison_predicates_bound(st.poison_transitions@, 0, q);
        lemma_state_exprs(self.states@, self.states@.len() as int, s, i);
    }

    /// The automaton has a start and an accept state, every transition leads to
    /// a state, every state has a step, and all predicates can be counted.
    pub open spec fn wf(&self) -> bool {
        &&& self.states@.len() > 0
        &&& (self.accept_state as int) < self.states@.len()
        &&& self.state_to_step@.len() == self.states@.len()
        &&& self.predicate_count() <= usize::MAX
        &&& forall|s: int, t: int|
            0 <= s < self.states@.len() && 0 <= t < self.states@[s].transitions@.len()
                ==> (#[trigger] self.states@[s].transitions@[t]).target < self.states@.len()
    }

    /// Whether an event type occurs in the pattern at all.
    pub open spec fn is_relevant(&self, event_type: Seq<char>) -> bool {
        exists|i: int|
            0 <= i < self.relevant_event_types@.len()
                && #[trigger] self.relevant_event_types@[i]@ == event_type
    }

    /// Whether an event type occurs in the pattern at all.
    pub fn has_relevant(&self, event_type: &str) -> (r: bool)
        ensures
            r == self.is_relevant(event_type@),
    {
        let mut i: usize = 0;
        while i < self.relevant_event_types.len()
            invariant
                i <= self.relevant_event_types@.len(),
                forall|j: int|
                    0 <= j < i ==> #[trigger] self.relevant_event_types@[j]@ != event_type@,
            decreases self.relevant_event_types@.len() - i,
        {
            if text_eq(self.relevant_event_types[i].as_str(), event_type) {
                return true;
            }
            i = i + 1;
        }
        false
    }
}

} // verus!
