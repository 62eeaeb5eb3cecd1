//! The automaton simulator: Thompson-style propagation of candidates, one event
//! at a time.
//!
//! For every event three things happen in order. Existing candidates expire,
//! are killed by poison transitions, or advance. New candidates start from
//! state 0. The accept state is checked. States are visited from last to first
//! and advances are applied afterwards, so that one event never moves a
//! candidate twice.

use std::collections::VecDeque;

use vstd::prelude::*;

use super::bindings::{BindingValue, BindingView, binding_views, duplicate_values};
use super::pattern::{CompiledNfa, NfaState, PoisonTransition, TimeRange, Transition, can_enter,
    may_enter, poison_predicates, state_predicates, transition_predicates};
use crate::columnar::{Batch, BatchView, CellView, DataKind, array_view, batch_view, column_named,
    int64_values, named_column, num_rows, string_view_values, text_cells, timestamp_values,
    type_kind};
use crate::text::text_eq;

verus! {

/// The largest number of candidates that one entity keeps by default.
pub const DEFAULT_ACTIVE_STATE_LIMIT: usize = 10_000;

/// An unfinished match: when it began and when it last advanced.
#[derive(Debug, Clone, Copy, PartialEq, Eq, Structural)]
pub struct CandidateEntry {
    /// The timestamp of the first step.
    pub anchor_ts: i64,
    /// The timestamp of the event that led to the current state.
    pub last_step_ts: i64,
}

/// The content of a [`MatchCompletion`].
pub struct CompletionView {
    pub anchor_ts: i64,
    pub final_ts: i64,
    pub bindings: Seq<BindingView>,
}

/// The content of a [`PartialMatch`].
pub struct PartialView {
    pub anchor_ts: i64,
    pub step_reached: u8,
    pub bindings: Seq<BindingView>,
}

/// A completed match.
#[derive(Debug)]
pub struct MatchCompletion {
    /// The timestamp of the first step.
    pub anchor_ts: i64,
    /// The timestamp of the last step.
    pub final_ts: i64,
    /// The values bound to the pattern's variables.
    pub bindings: Vec<BindingValue>,
}

/// An unfinished match that is reported as such.
#[derive(Debug)]
pub struct PartialMatch {
    /// The timestamp of the first step.
    pub anchor_ts: i64,
    /// The farthest step reached.
    pub step_reached: u8,
    /// The values bound to the pattern's variables.
    pub bindings: Vec<BindingValue>,
}

impl View for MatchCompletion {
    type V = CompletionView;

    open spec fn view(&self) -> CompletionView {
        CompletionView {
            anchor_ts: self.anchor_ts,
            final_ts: self.final_ts,
            bindings: binding_views(self.bindings@),
        }
    }
}

impl View for PartialMatch {
    type V = PartialView;

    open spec fn view(&self) -> PartialView {
        PartialView {
            anchor_ts: self.anchor_ts,
            step_reached: self.step_reached,
            bindings: binding_views(self.bindings@),
        }
    }
}

impl MatchCompletion {
    /// A copy of this match.
    pub fn duplicate(&self) -> (r: Self)
        ensures
            r@ == self@,
    {
        MatchCompletion {
            anchor_ts: self.anchor_ts,
            final_ts: self.final_ts,
            bindings: duplicate_values(self.bindings.as_slice()),
        }
    }
}

impl PartialMatch {
    /// A copy of this match.
    pub fn duplicate(&self) -> (r: Self)
        ensures
            r@ == self@,
    {
        PartialMatch {
            anchor_ts: self.anchor_ts,
            step_reached: self.step_reached,
            bindings: duplicate_values(self.bindings.as_slice()),
        }
    }
}

/// The contents of a list of completions.
pub open spec fn completion_views(list: Seq<MatchCompletion>) -> Seq<CompletionView> {
    Seq::new(list.len(), |i: int| list[i]@)
}

/// The contents of a list of partial matches.
pub open spec fn partial_views(list: Seq<PartialMatch>) -> Seq<PartialView> {
    Seq::new(list.len(), |i: int| list[i]@)
}

/// Whether more than `window` lies between the anchor and the event.
pub open spec fn expired(event_ts: i64, anchor_ts: i64, window: i64) -> bool {
    event_ts - anchor_ts > window
}

/// Whether more than `window` lies between the anchor and the event.
pub fn is_expired(event_ts: i64, anchor_ts: i64, window: i64) -> (r: bool)
    ensures
        r == expired(event_ts, anchor_ts, window),
        r <==> event_ts as int - anchor_ts as int > window as int,
{
    event_ts as i128 - anchor_ts as i128 > window as i128
}

/// The candidates whose window has passed, in their order.
pub open spec fn expired_ones(d: Seq<CandidateEntry>, event_ts: i64, window: i64) -> Seq<
    CandidateEntry,
> {
    d.filter(|c: CandidateEntry| expired(event_ts, c.anchor_ts, window))
}

/// The candidates whose window has not passed, in their order.
pub open spec fn unexpired_ones(d: Seq<CandidateEntry>, event_ts: i64, window: i64) -> Seq<
    CandidateEntry,
> {
    d.filter(|c: CandidateEntry| !expired(event_ts, c.anchor_ts, window))
}

/// The last position that holds an anchor, or -1.
pub open spec fn anchor_position(d: Seq<CandidateEntry>, anchor: i64) -> int
    decreases d.len(),
{
    if d.len() == 0 {
        -1
    } else if d.last().anchor_ts == anchor {
        d.len() - 1
    } else {
        anchor_position(d.drop_last(), anchor)
    }
}

/// Whether no two candidates have one anchor.
pub open spec fn one_per_anchor(d: Seq<CandidateEntry>) -> bool {
    forall|i: int, j: int|
        0 <= i < j < d.len() ==> (#[trigger] d[i]).anchor_ts != (#[trigger] d[j]).anchor_ts
}

/// The later of two timestamps.
pub open spec fn later(a: i64, b: i64) -> i64 {
    if a >= b {
        a
    } else {
        b
    }
}

/// A deque after a candidate was added: a candidate with the same anchor keeps
/// its place and the later of the two step timestamps, any other goes to the
/// back.
pub open spec fn with_candidate(d: Seq<CandidateEntry>, c: CandidateEntry) -> Seq<CandidateEntry> {
    let j = anchor_position(d, c.anchor_ts);
    if j >= 0 {
        d.update(
            j,
            CandidateEntry {
                anchor_ts: c.anchor_ts,
                last_step_ts: later(d[j].last_step_ts, c.last_step_ts),
            },
        )
    } else {
        d.push(c)
    }
}

/// Candidates reported as partial matches of one step.
pub open spec fn partials_of(d: Seq<CandidateEntry>, step: u8) -> Seq<PartialView> {
    Seq::new(
        d.len(),
        |i: int|
            PartialView { anchor_ts: d[i].anchor_ts, step_reached: step, bindings: Seq::empty() },
    )
}

/// What is kept of a list was in it.
proof fn lemma_filter_within(d: Seq<CandidateEntry>, keep: spec_fn(CandidateEntry) -> bool)
    ensures
        forall|i: int| 0 <= i < d.filter(keep).len() ==> d.contains(#[trigger] d.filter(keep)[i]),
    decreases d.len(),
{
    reveal(Seq::filter);
    if d.len() > 0 {
        let rest = d.drop_last();
        lemma_filter_within(rest, keep);
        assert forall|i: int| 0 <= i < d.filter(keep).len() implies d.contains(
            #[trigger] d.filter(keep)[i],
        ) by {
            if i < rest.filter(keep).len() {
                let j = choose|j: int| 0 <= j < rest.len() && rest[j] == rest.filter(keep)[i];
                assert(rest.contains(rest.filter(keep)[i]));
                assert(d[j] == d.filter(keep)[i]);
            } else {
                assert(d[d.len() - 1] == d.filter(keep)[i]);
            }
        }
    }
}

/// Expiry sorts out candidates and makes none.
pub proof fn lemma_expiry_within(d: Seq<CandidateEntry>, event_ts: i64, window: i64)
    ensures
        forall|i: int|
            0 <= i < expired_ones(d, event_ts, window).len() ==> d.contains(
                #[trigger] expired_ones(d, event_ts, window)[i],
            ),
        forall|i: int|
            0 <= i < unexpired_ones(d, event_ts, window).len() ==> d.contains(
                #[trigger] unexpired_ones(d, event_ts, window)[i],
            ),
{
    lemma_filter_within(d, |c: CandidateEntry| expired(event_ts, c.anchor_ts, window));
    lemma_filter_within(d, |c: CandidateEntry| !expired(event_ts, c.anchor_ts, window));
}

/// Expiry of one candidate more.
proof fn lemma_expiry_step(d: Seq<CandidateEntry>, i: int, event_ts: i64, window: i64)
    requires
        0 <= i < d.len(),
    ensures
        expired_ones(d.take(i + 1), event_ts, window) == if expired(
            event_ts,
            d[i].anchor_ts,
            window,
        ) {
            expired_ones(d.take(i), event_ts, window).push(d[i])
        } else {
            expired_ones(d.take(i), event_ts, window)
        },
        unexpired_ones(d.take(i + 1), event_ts, window) == if expired(
            event_ts,
            d[i].anchor_ts,
            window,
        ) {
            unexpired_ones(d.take(i), event_ts, window)
        } else {
            unexpired_ones(d.take(i), event_ts, window).push(d[i])
        },
{
    reveal(Seq::filter);
    assert(d.take(i + 1).drop_last() =~= d.take(i));
}

pub proof fn lemma_anchor_position(d: Seq<CandidateEntry>, anchor: i64)
    ensures
        -1 <= anchor_position(d, anchor) < d.len(),
        anchor_position(d, anchor) >= 0 ==> d[anchor_position(d, anchor)].anchor_ts == anchor,
        forall|i: int|
            anchor_position(d, anchor) < i < d.len() ==> (#[trigger] d[i]).anchor_ts != anchor,
    decreases d.len(),
{
    if d.len() > 0 && d.last().anchor_ts != anchor {
        lemma_anchor_position(d.drop_last(), anchor);
        assert forall|i: int| anchor_position(d, anchor) < i < d.len() implies (
        #[trigger] d[i]).anchor_ts != anchor by {
            if i < d.len() - 1 {
                assert(d[i] == d.drop_last()[i]);
            }
        }
    }
}

/// The candidates waiting in one state.
#[derive(Debug)]
pub struct StateCandidates {
    pub candidates: VecDeque<CandidateEntry>,
}

impl View for StateCandidates {
    type V = Seq<CandidateEntry>;

    open spec fn view(&self) -> Seq<CandidateEntry> {
        self.candidates@
    }
}

/// Adds candidates to a list of partial matches.
fn push_partials(partials: &mut Vec<PartialMatch>, d: &VecDeque<CandidateEntry>, step: u8)
    ensures
        partial_views(final(partials)@) == partial_views(old(partials)@) + partials_of(d@, step),
{
    let mut i: usize = 0;
    while i < d.len()
        invariant
            i <= d@.len(),
            partial_views(partials@) == partial_views(old(partials)@) + partials_of(
                d@.take(i as int),
                step,
            ),
        decreases d@.len() - i,
    {
        let entry: CandidateEntry = d[i];
        let ghost before = partials@;
        partials.push(
            PartialMatch { anchor_ts: entry.anchor_ts, step_reached: step, bindings: Vec::new() },
        );
        proof {
            let p = partials@.last();
            assert(binding_views(p.bindings@) =~= Seq::empty());
            assert(partial_views(partials@) =~= partial_views(before).push(p@));
            assert(partials_of(d@.take(i + 1), step) =~= partials_of(d@.take(i as int), step).push(
                p@,
            ));
        }
        i = i + 1;
    }
    assert(d@.take(d@.len() as int) =~= d@);
}

/// Adds the candidates whose window has passed to a list of partial matches.
fn push_expired(
    partials: &mut Vec<PartialMatch>,
    d: &VecDeque<CandidateEntry>,
    event_ts: i64,
    window: i64,
    step: u8,
)
    ensures
        partial_views(final(partials)@) == partial_views(old(partials)@) + partials_of(
            expired_ones(d@, event_ts, window),
            step,
        ),
{
    let mut i: usize = 0;
    proof {
        reveal(Seq::filter);
        assert(partial_views(partials@) =~= partial_views(partials@) + partials_of(
            expired_ones(d@.take(0), event_ts, window),
            step,
        ));
    }
    while i < d.len()
        invariant
            i <= d@.len(),
            partial_views(partials@) == partial_views(old(partials)@) + partials_of(
                expired_ones(d@.take(i as int), event_ts, window),
                step,
            ),
        decreases d@.len() - i,
    {
        let entry: CandidateEntry = d[i];
        let ghost before = partials@;
        let ghost listed = expired_ones(d@.take(i as int), event_ts, window);
        proof {
            lemma_expiry_step(d@, i as int, event_ts, window);
        }
        if is_expired(event_ts, entry.anchor_ts, window) {
            partials.push(
                PartialMatch {
                    anchor_ts: entry.anchor_ts,
                    step_reached: step,
                    bindings: Vec::new(),
                },
            );
            proof {
                let p = partials@.last();
                assert(binding_views(p.bindings@) =~= Seq::empty());
                assert(partial_views(partials@) =~= partial_views(before).push(p@));
                assert(partials_of(listed.push(entry), step) =~= partials_of(listed, step).push(
                    p@,
                ));
            }
        }
        i = i + 1;
    }
    assert(d@.take(d@.len() as int) =~= d@);
}

impl StateCandidates {
    /// A state without candidates.
    pub fn new() -> (r: Self)
        ensures
            r@ == Seq::<CandidateEntry>::empty(),
    {
        StateCandidates { candidates: VecDeque::new() }
    }

    /// The number of candidates.
    pub fn len(&self) -> (r: usize)
        ensures
            r == self@.len(),
    {
        self.candidates.len()
    }

    /// Whether there is no candidate.
    pub fn is_empty(&self) -> (r: bool)
        ensures
            r == (self@.len() == 0),
    {
        self.candidates.len() == 0
    }

    /// Removes every candidate whose window has passed and returns how many there
    /// were.
    pub fn expire_window(&mut self, event_ts: i64, global_window: i64) -> (removed: usize)
        ensures
            final(self)@ == unexpired_ones(old(self)@, event_ts, global_window),
            removed == old(self)@.len() - final(self)@.len(),
    {
        let ghost start = self@;
        let total: usize = self.candidates.len();
        let mut removed: usize = 0;
        let mut i: usize = 0;
        proof {
            reveal(Seq::filter);
            assert(start.skip(0) + unexpired_ones(start.take(0), event_ts, global_window)
                =~= start);
        }
        while i < total
            invariant
                i <= total == start.len(),
                removed <= i,
                removed + unexpired_ones(start.take(i as int), event_ts, global_window).len() == i,
                self@ == start.skip(i as int) + unexpired_ones(
                    start.take(i as int),
                    event_ts,
                    global_window,
                ),
            decreases total - i,
        {
            let ghost kept = unexpired_ones(start.take(i as int), event_ts, global_window);
            let entry: CandidateEntry = self.candidates[0];
            proof {
                lemma_expiry_step(start, i as int, event_ts, global_window);
                assert(self@[0] == start[i as int]);
            }
            let _ = self.candidates.pop_front();
            assert(self@ =~= start.skip(i + 1) + kept);
            if is_expired(event_ts, entry.anchor_ts, global_window) {
                removed = removed + 1;
            } else {
                self.candidates.push_back(entry);
                assert(self@ =~= start.skip(i + 1) + kept.push(entry));
            }
            i = i + 1;
        }
        proof {
            assert(start.take(total as int) =~= start);
            assert(self@ =~= unexpired_ones(start, event_ts, global_window));
        }
        removed
    }

    /// Removes every candidate and returns how many there were.
    pub fn kill_all(&mut self) -> (n: usize)
        ensures
            n == old(self)@.len(),
            final(self)@ == Seq::<CandidateEntry>::empty(),
    {
        let n: usize = self.candidates.len();
        self.candidates.clear();
        n
    }

    /// Adds a candidate. Of two candidates with one anchor the later step
    /// timestamp is kept.
    pub fn insert_dedup(&mut self, entry: CandidateEntry)
        ensures
            final(self)@ == with_candidate(old(self)@, entry),
            one_per_anchor(old(self)@) ==> one_per_anchor(final(self)@),
    {
        let ghost start = self@;
        let mut i: usize = self.candidates.len();
        proof {
            assert(start.take(start.len() as int) =~= start);
            lemma_anchor_position(start, entry.anchor_ts);
        }
        while i > 0
            invariant
                i <= start.len(),
                self@ == start,
                start == old(self)@,
                anchor_position(start.take(i as int), entry.anchor_ts) == anchor_position(
                    start,
                    entry.anchor_ts,
                ),
                forall|j: int| i <= j < start.len() ==> (#[trigger] start[j]).anchor_ts
                    != entry.anchor_ts,
            decreases i,
        {
            let existing: CandidateEntry = self.candidates[i - 1];
            proof {
                assert(start.take(i as int).last() == existing);
                assert(start.take(i as int).drop_last() =~= start.take(i - 1));
            }
            if existing.anchor_ts == entry.anchor_ts {
                if entry.last_step_ts > existing.last_step_ts {
                    self.set(i - 1, entry);
                } else {
                    assert(start.update(i - 1, existing) =~= start);
                }
                return;
            }
            i = i - 1;
        }
        self.candidates.push_back(entry);
    }

    fn set(&mut self, i: usize, entry: CandidateEntry)
        requires
            i < old(self)@.len(),
        ensures
            final(self)@ == old(self)@.update(i as int, entry),
    {
        let ghost start = self@;
        let _ = self.candidates.remove(i);
        self.candidates.insert(i, entry);
        assert(self@ =~= start.update(i as int, entry));
    }
}

/// The candidates of all states.
pub open spec fn deque_views(deques: Seq<StateCandidates>) -> Seq<Seq<CandidateEntry>> {
    Seq::new(deques.len(), |i: int| deques[i]@)
}

/// The number of candidates in the first `n` states.
pub open spec fn candidate_count(deques: Seq<Seq<CandidateEntry>>, n: int) -> nat
    decreases n,
{
    if n <= 0 {
        0
    } else {
        candidate_count(deques, n - 1) + deques[n - 1].len()
    }
}

/// The number of candidates in all states.
pub open spec fn total_count(deques: Seq<Seq<CandidateEntry>>) -> nat {
    candidate_count(deques, deques.len() as int)
}

/// All candidates of the first `n` states, reported as partial matches.
pub open spec fn drained(
    deques: Seq<Seq<CandidateEntry>>,
    state_to_step: Seq<u8>,
    n: int,
) -> Seq<PartialView>
    decreases n,
{
    if n <= 0 {
        Seq::empty()
    } else {
        drained(deques, state_to_step, n - 1) + partials_of(deques[n - 1], state_to_step[n - 1])
    }
}

/// As many empty states.
pub open spec fn emptied(deques: Seq<Seq<CandidateEntry>>) -> Seq<Seq<CandidateEntry>> {
    Seq::new(deques.len(), |i: int| Seq::<CandidateEntry>::empty())
}

/// The content of an [`EntityNfaState`].
pub struct NfaModel {
    pub deques: Seq<Seq<CandidateEntry>>,
    pub completions: Seq<CompletionView>,
    pub partials: Seq<PartialView>,
    pub dropped_count: u64,
    pub max_step_reached: u8,
    pub scan_from: Option<i64>,
}

/// What the simulator knows of one entity. It persists across sub-batches.
#[derive(Debug)]
pub struct EntityNfaState {
    /// The candidates of each state.
    pub state_deques: Vec<StateCandidates>,
    /// The matches completed so far.
    pub completions: Vec<MatchCompletion>,
    /// The unfinished matches reported so far.
    pub partials: Vec<PartialMatch>,
    /// How many candidates were dropped over the limit. Stays at its maximum
    /// once it gets there.
    pub dropped_count: u64,
    /// The farthest step that any candidate reached.
    pub max_step_reached: u8,
    /// The end of the last consumed match: a new candidate starts after it.
    pub scan_from: Option<i64>,
}

impl View for EntityNfaState {
    type V = NfaModel;

    open spec fn view(&self) -> NfaModel {
        NfaModel {
            deques: deque_views(self.state_deques@),
            completions: completion_views(self.completions@),
            partials: partial_views(self.partials@),
            dropped_count: self.dropped_count,
            max_step_reached: self.max_step_reached,
            scan_from: self.scan_from,
        }
    }
}

/// The state of an entity of which nothing was seen.
pub open spec fn fresh_model(num_states: nat) -> NfaModel {
    NfaModel {
        deques: Seq::new(num_states, |i: int| Seq::<CandidateEntry>::empty()),
        completions: Seq::empty(),
        partials: Seq::empty(),
        dropped_count: 0,
        max_step_reached: 0,
        scan_from: None,
    }
}

/// The state after a completed match was consumed and matching goes on.
pub open spec fn reset_model(
    m: NfaModel,
    consumed_ts: i64,
    emit_all: bool,
    state_to_step: Seq<u8>,
) -> NfaModel {
    NfaModel {
        deques: emptied(m.deques),
        partials: if emit_all {
            m.partials + drained(m.deques, state_to_step, m.deques.len() as int)
        } else {
            m.partials
        },
        scan_from: Some(consumed_ts),
        ..m
    }
}

impl EntityNfaState {
    /// The state of a new entity.
    pub fn new(num_states: usize) -> (r: Self)
        ensures
            r@ == fresh_model(num_states as nat),
    {
        let mut state_deques: Vec<StateCandidates> = Vec::new();
        let mut i: usize = 0;
        while i < num_states
            invariant
                i <= num_states,
                state_deques@.len() == i,
                forall|j: int| 0 <= j < i ==> (#[trigger] state_deques@[j])@ == Seq::<
                    CandidateEntry,
                >::empty(),
            decreases num_states - i,
        {
            state_deques.push(StateCandidates::new());
            i = i + 1;
        }
        let r = EntityNfaState {
            state_deques,
            completions: Vec::new(),
            partials: Vec::new(),
            dropped_count: 0,
            max_step_reached: 0,
            scan_from: None,
        };
        proof {
            assert(r@.deques =~= fresh_model(num_states as nat).deques);
            assert(r@.completions =~= Seq::empty());
            assert(r@.partials =~= Seq::empty());
        }
        r
    }

    /// The number of candidates in all states, as a wide integer.
    fn count_candidates(&self) -> (n: u128)
        ensures
            n == total_count(self@.deques),
    {
        let len: usize = self.state_deques.len();
        let mut n: u128 = 0;
        let mut i: usize = 0;
        while i < len
            invariant
                i <= len == self.state_deques@.len(),
                n == candidate_count(self@.deques, i as int),
                n <= i * usize::MAX,
            decreases len - i,
        {
            let k: usize = self.state_deques[i].len();
            proof {
                assert(self@.deques[i as int].len() == k);
                assert(n + k <= (i + 1) * usize::MAX) by (nonlinear_arith)
                    requires
                        n <= i * usize::MAX,
                        k <= usize::MAX,
                ;
                assert((i + 1) * usize::MAX <= usize::MAX * usize::MAX) by (nonlinear_arith)
                    requires
                        i + 1 <= usize::MAX,
                ;
                assert(usize::MAX * usize::MAX < u128::MAX) by (nonlinear_arith)
                    requires
                        usize::MAX <= 0xffff_ffff_ffff_ffff,
                ;
            }
            n = n + k as u128;
            i = i + 1;
        }
        n
    }

    /// The number of candidates in all states.
    pub fn total_candidates(&self) -> (n: usize)
        requires
            total_count(self@.deques) <= usize::MAX,
        ensures
            n == total_count(self@.deques),
    {
        self.count_candidates() as usize
    }

    /// The matches completed so far.
    pub fn completions(&self) -> (r: &[MatchCompletion])
        ensures
            r@ == self.completions@,
    {
        self.completions.as_slice()
    }

    /// The unfinished matches reported so far.
    pub fn partials(&self) -> (r: &[PartialMatch])
        ensures
            r@ == self.partials@,
    {
        self.partials.as_slice()
    }

    /// How many candidates were dropped over the limit.
    pub fn dropped_count(&self) -> (r: u64)
        ensures
            r == self@.dropped_count,
    {
        self.dropped_count
    }

    /// Removes every candidate.
    fn clear_candidates(&mut self)
        ensures
            final(self)@ == (NfaModel { deques: emptied(old(self)@.deques), ..old(self)@ }),
    {
        let ghost n0 = self.state_deques@.len();
        let mut i: usize = 0;
        while i < self.state_deques.len()
            invariant
                i <= self.state_deques@.len() == n0 == old(self).state_deques@.len(),
                self@ == (NfaModel { deques: self@.deques, ..old(self)@ }),
                forall|j: int| 0 <= j < i ==> (#[trigger] self.state_deques@[j])@ == Seq::<
                    CandidateEntry,
                >::empty(),
            decreases n0 - i,
        {
            let _ = self.state_deques[i].kill_all();
            i = i + 1;
        }
        assert(self@.deques =~= emptied(old(self)@.deques));
    }

    /// Reports every candidate as a partial match and removes it.
    pub fn drain_as_partials(&mut self, state_to_step: &[u8])
        requires
            state_to_step@.len() >= old(self)@.deques.len(),
        ensures
            final(self)@ == (NfaModel {
                deques: emptied(old(self)@.deques),
                partials: old(self)@.partials + drained(
                    old(self)@.deques,
                    state_to_step@,
                    old(self)@.deques.len() as int,
                ),
                ..old(self)@
            }),
    {
        let mut i: usize = 0;
        assert(self@.partials =~= old(self)@.partials + drained(old(self)@.deques, state_to_step@, 0));
        while i < self.state_deques.len()
            invariant
                i <= self.state_deques@.len(),
                self.state_deques == old(self).state_deques,
                state_to_step@.len() >= old(self)@.deques.len(),
                self@ == (NfaModel { partials: self@.partials, ..old(self)@ }),
                self@.partials == old(self)@.partials + drained(
                    old(self)@.deques,
                    state_to_step@,
                    i as int,
                ),
            decreases self.state_deques@.len() - i,
        {
            let ghost before = self@.partials;
            push_partials(
                &mut self.partials,
                &self.state_deques[i].candidates,
                state_to_step[i],
            );
            proof {
                let d = old(self)@.deques[i as int];
                assert(self@.partials =~= old(self)@.partials + drained(
                    old(self)@.deques,
                    state_to_step@,
                    i + 1,
                ));
            }
            i = i + 1;
        }
        self.clear_candidates();
    }

    /// Resets the state after a completed match, so that matching goes on with
    /// the events after `consumed_ts`.
    pub fn reset_for_match_all(&mut self, consumed_ts: i64, emit_all: bool, state_to_step: &[u8])
        requires
            state_to_step@.len() >= old(self)@.deques.len(),
        ensures
            final(self)@ == reset_model(old(self)@, consumed_ts, emit_all, state_to_step@),
    {
        if emit_all {
            self.drain_as_partials(state_to_step);
        } else {
            self.clear_candidates();
        }
        self.scan_from = Some(consumed_ts);
    }
}

/// The outcome of every predicate of a pattern on the rows of one batch. The
/// predicates are listed state by state, forward transitions first. `None`
/// stands for a predicate that could not be evaluated, a null entry for an
/// unknown outcome; neither lets an event pass.
#[derive(Debug)]
pub struct PredicateCache {
    pub results: Vec<Option<Vec<Option<bool>>>>,
}

impl PredicateCache {
    /// There is one result for each of `count` predicates, on `rows` rows each.
    pub open spec fn covers(&self, count: int, rows: int) -> bool {
        &&& self.results@.len() == count
        &&& forall|i: int|
            0 <= i < count ==> ((#[trigger] self.results@[i]) matches Some(mask)
                ==> mask@.len() == rows)
    }

    /// Whether a predicate holds on a row.
    pub open spec fn holds(&self, predicate_idx: int, row: int) -> bool {
        match self.results@[predicate_idx] {
            Some(mask) => mask@[row] == Some(true),
            None => false,
        }
    }

    /// Whether a predicate holds on a row.
    fn check(&self, predicate_idx: usize, row: usize) -> (r: bool)
        requires
            predicate_idx < self.results@.len(),
            self.results@[predicate_idx as int] matches Some(mask) ==> row < mask@.len(),
        ensures
            r == self.holds(predicate_idx as int, row as int),
    {
        match &self.results[predicate_idx] {
            Some(mask) => match mask[row] {
                Some(b) => b,
                None => false,
            },
            None => false,
        }
    }
}

/// Where the predicates of each state begin in a [`PredicateCache`].
#[derive(Debug)]
pub struct PredicateIndexMap {
    /// The first forward and the first poison predicate of each state.
    pub offsets: Vec<(usize, usize)>,
}

impl PredicateIndexMap {
    /// The offsets are those of the pattern.
    pub open spec fn matches_nfa(&self, nfa: &CompiledNfa) -> bool {
        &&& self.offsets@.len() == nfa.states@.len()
        &&& forall|s: int|
            0 <= s < nfa.states@.len() ==> {
                &&& (#[trigger] self.offsets@[s]).0 == state_predicates(nfa.states@, s)
                &&& self.offsets@[s].1 == state_predicates(nfa.states@, s)
                    + nfa.states@[s].forward_count()
            }
    }

    pub(crate) fn build(nfa: &CompiledNfa) -> (r: Self)
        requires
            nfa.predicate_count() <= usize::MAX,
        ensures
            r.matches_nfa(nfa),
    {
        let mut offsets: Vec<(usize, usize)> = Vec::new();
        let mut idx: usize = 0;
        let mut s: usize = 0;
        while s < nfa.states.len()
            invariant
                s <= nfa.states@.len(),
                nfa.predicate_count() <= usize::MAX,
                idx == state_predicates(nfa.states@, s as int),
                offsets@.len() == s,
                forall|j: int|
                    0 <= j < s ==> {
                        &&& (#[trigger] offsets@[j]).0 == state_predicates(nfa.states@, j)
                        &&& offsets@[j].1 == state_predicates(nfa.states@, j)
                            + nfa.states@[j].forward_count()
                    },
            decreases nfa.states@.len() - s,
        {
            let state: &NfaState = &nfa.states[s];
            proof {
                super::pattern::lemma_state_predicates_bound(
                    nfa.states@,
                    s + 1,
                    nfa.states@.len() as int,
                );
                super::pattern::lemma_poison_predicates_bound(
                    state.poison_transitions@,
                    0,
                    state.poison_transitions@.len() as int,
                );
            }
            let forward_start: usize = idx;
            let mut t: usize = 0;
            while t < state.transitions.len()
                invariant
                    t <= state.transitions@.len(),
                    idx == forward_start + transition_predicates(state.transitions@, t as int),
                    forward_start + state.forward_count() <= usize::MAX,
                decreases state.transitions@.len() - t,
            {
                proof {
                    super::pattern::lemma_transition_predicates_bound(
                        state.transitions@,
                        t + 1,
                        state.transitions@.len() as int,
                    );
                }
                idx = idx + state.transitions[t].predicates.len();
                t = t + 1;
            }
            let poison_start: usize = idx;
            let mut q: usize = 0;
            while q < state.poison_transitions.len()
                invariant
                    q <= state.poison_transitions@.len(),
                    idx == poison_start + poison_predicates(state.poison_transitions@, q as int),
                    poison_start + state.poison_count() <= usize::MAX,
                decreases state.poison_transitions@.len() - q,
            {
                proof {
                    super::pattern::lemma_poison_predicates_bound(
                        state.poison_transitions@,
                        q + 1,
                        state.poison_transitions@.len() as int,
                    );
                }
                idx = idx + state.poison_transitions[q].predicates.len();
                q = q + 1;
            }
            offsets.push((forward_start, poison_start));
            s = s + 1;
        }
        PredicateIndexMap { offsets }
    }

    /// The position of a forward transition's predicate in the cache.
    fn forward_predicate_idx(
        &self,
        nfa: &CompiledNfa,
        state_idx: usize,
        transition_idx: usize,
        pred_idx: usize,
    ) -> (r: usize)
        requires
            self.matches_nfa(nfa),
            nfa.predicate_count() <= usize::MAX,
            state_idx < nfa.states@.len(),
            transition_idx < nfa.states@[state_idx as int].transitions@.len(),
            pred_idx
                < nfa.states@[state_idx as int].transitions@[transition_idx as int].predicates@.len(),
        ensures
            r == nfa.forward_index(state_idx as int, transition_idx as int, pred_idx as int),
            r < nfa.predicate_count(),
    {
        let transitions: &Vec<Transition> = &nfa.states[state_idx].transitions;
        let base: usize = self.offsets[state_idx].0;
        proof {
            nfa.lemma_forward_index_bound(
                state_idx as int,
                transition_idx as int,
                pred_idx as int,
            );
        }
        let mut offset: usize = 0;
        let mut t: usize = 0;
        while t < transition_idx
            invariant
                t <= transition_idx < transitions@.len(),
                offset == transition_predicates(transitions@, t as int),
                transition_predicates(transitions@, transition_idx as int) <= usize::MAX,
            decreases transition_idx - t,
        {
            proof {
                super::pattern::lemma_transition_predicates_bound(
                    transitions@,
                    t + 1,
                    transition_idx as int,
                );
            }
            offset = offset + transitions[t].predicates.len();
            t = t + 1;
        }
        base + offset + pred_idx
    }

    /// The position of a poison transition's predicate in the cache.
    fn poison_predicate_idx(
        &self,
        nfa: &CompiledNfa,
        state_idx: usize,
        poison_idx: usize,
        pred_idx: usize,
    ) -> (r: usize)
        requires
            self.matches_nfa(nfa),
            nfa.predicate_count() <= usize::MAX,
            state_idx < nfa.states@.len(),
            poison_idx < nfa.states@[state_idx as int].poison_transitions@.len(),
            pred_idx < nfa.states@[state_idx as int].poison_transitions@[poison_idx as int].predicates@.len(),
        ensures
            r == nfa.poison_index(state_idx as int, poison_idx as int, pred_idx as int),
            r < nfa.predicate_count(),
    {
        let poisons: &Vec<PoisonTransition> = &nfa.states[state_idx].poison_transitions;
        let base: usize = self.offsets[state_idx].1;
        proof {
            nfa.lemma_poison_index_bound(state_idx as int, poison_idx as int, pred_idx as int);
        }
        let mut offset: usize = 0;
        let mut q: usize = 0;
        while q < poison_idx
            invariant
                q <= poison_idx < poisons@.len(),
                offset == poison_predicates(poisons@, q as int),
                poison_predicates(poisons@, poison_idx as int) <= usize::MAX,
            decreases poison_idx - q,
        {
            proof {
                super::pattern::lemma_poison_predicates_bound(poisons@, q + 1, poison_idx as int);
            }
            offset = offset + poisons[q].predicates.len();
            q = q + 1;
        }
        base + offset + pred_idx
    }
}

/// One event: its type, its time, and its row in the evaluated predicates.
pub struct EventView {
    pub event_type: Seq<char>,
    pub ts: i64,
    pub row: int,
    pub cache: PredicateCache,
}

/// Whether an event takes forward transition `t` of state `s`.
pub open spec fn fires(nfa: &CompiledNfa, ev: EventView, s: int, t: int) -> bool {
    let tr = nfa.states@[s].transitions@[t];
    &&& tr.event_type@ == ev.event_type
    &&& forall|p: int|
        0 <= p < tr.predicates@.len() ==> #[trigger] ev.cache.holds(
            nfa.forward_index(s, t, p),
            ev.row,
        )
}

/// Whether an event takes poison transition `q` of state `s`.
pub open spec fn poison_fires(nfa: &CompiledNfa, ev: EventView, s: int, q: int) -> bool {
    let po = nfa.states@[s].poison_transitions@[q];
    &&& po.event_type@ == ev.event_type
    &&& forall|p: int|
        0 <= p < po.predicates@.len() ==> #[trigger] ev.cache.holds(
            nfa.poison_index(s, q, p),
            ev.row,
        )
}

/// Whether an event kills the candidates of state `s`.
pub open spec fn poisoned(nfa: &CompiledNfa, ev: EventView, s: int) -> bool {
    exists|q: int|
        0 <= q < nfa.states@[s].poison_transitions@.len() && #[trigger] poison_fires(nfa, ev, s, q)
}

/// The candidates of a state whose window has passed.
pub open spec fn outdated(nfa: &CompiledNfa, ev: EventView, d: Seq<CandidateEntry>) -> Seq<
    CandidateEntry,
> {
    match nfa.global_window {
        Some(w) => expired_ones(d, ev.ts, w),
        None => Seq::empty(),
    }
}

/// The candidates of a state whose window has not passed.
pub open spec fn current(nfa: &CompiledNfa, ev: EventView, d: Seq<CandidateEntry>) -> Seq<
    CandidateEntry,
> {
    match nfa.global_window {
        Some(w) => unexpired_ones(d, ev.ts, w),
        None => d,
    }
}

/// The candidates of state `s` that outlive an event.
pub open spec fn survivors(
    nfa: &CompiledNfa,
    ev: EventView,
    s: int,
    d: Seq<CandidateEntry>,
) -> Seq<CandidateEntry> {
    if poisoned(nfa, ev, s) {
        Seq::empty()
    } else {
        current(nfa, ev, d)
    }
}

/// The partial matches reported for the candidates of state `s` that do not.
pub open spec fn losses(
    nfa: &CompiledNfa,
    ev: EventView,
    s: int,
    d: Seq<CandidateEntry>,
) -> Seq<PartialView> {
    let step = nfa.state_to_step@[s];
    if !nfa.emit_all {
        Seq::empty()
    } else if poisoned(nfa, ev, s) {
        partials_of(outdated(nfa, ev, d), step) + partials_of(current(nfa, ev, d), step)
    } else {
        partials_of(outdated(nfa, ev, d), step)
    }
}

/// Every candidate of a state, outdated or current, was in it.
pub proof fn lemma_swept_within(nfa: &CompiledNfa, ev: EventView, d: Seq<CandidateEntry>)
    ensures
        forall|i: int|
            0 <= i < outdated(nfa, ev, d).len() ==> d.contains(#[trigger] outdated(nfa, ev, d)[i]),
        forall|i: int|
            0 <= i < current(nfa, ev, d).len() ==> d.contains(#[trigger] current(nfa, ev, d)[i]),
{
    if let Some(w) = nfa.global_window {
        lemma_expiry_within(d, ev.ts, w);
    }
}

/// Whether an event may advance a candidate: it comes strictly later than the
/// last step and inside the window.
pub open spec fn eligible(nfa: &CompiledNfa, ts: i64, c: CandidateEntry) -> bool {
    &&& ts > c.last_step_ts
    &&& (nfa.global_window matches Some(w) ==> !expired(ts, c.anchor_ts, w))
}

/// The advances of the first `n` candidates along one transition.
pub open spec fn advances(
    nfa: &CompiledNfa,
    ts: i64,
    d: Seq<CandidateEntry>,
    target: u16,
    n: int,
) -> Seq<(u16, CandidateEntry)>
    decreases n,
{
    if n <= 0 {
        Seq::empty()
    } else {
        let before = advances(nfa, ts, d, target, n - 1);
        if eligible(nfa, ts, d[n - 1]) {
            before.push((target, CandidateEntry { anchor_ts: d[n - 1].anchor_ts, last_step_ts: ts }))
        } else {
            before
        }
    }
}

/// The advances out of state `s` along its first `k` transitions.
pub open spec fn state_moves(
    nfa: &CompiledNfa,
    ev: EventView,
    s: int,
    d: Seq<CandidateEntry>,
    k: int,
) -> Seq<(u16, CandidateEntry)>
    decreases k,
{
    if k <= 0 {
        Seq::empty()
    } else {
        let before = state_moves(nfa, ev, s, d, k - 1);
        if fires(nfa, ev, s, k - 1) {
            before + advances(
                nfa,
                ev.ts,
                d,
                nfa.states@[s].transitions@[k - 1].target,
                d.len() as int,
            )
        } else {
            before
        }
    }
}

/// The candidates of all states after expiry and poison, from state `lo` on.
pub open spec fn surviving_from(
    nfa: &CompiledNfa,
    ev: EventView,
    deques: Seq<Seq<CandidateEntry>>,
    lo: int,
) -> Seq<Seq<CandidateEntry>> {
    Seq::new(
        deques.len(),
        |s: int|
            if s >= lo && s != nfa.accept_state as int {
                survivors(nfa, ev, s, deques[s])
            } else {
                deques[s]
            },
    )
}

/// The partial matches that an event causes, from the last state down to `lo`.
pub open spec fn losses_down_to(
    nfa: &CompiledNfa,
    ev: EventView,
    deques: Seq<Seq<CandidateEntry>>,
    lo: int,
) -> Seq<PartialView>
    decreases deques.len() - lo,
{
    if lo >= deques.len() {
        Seq::empty()
    } else if lo == nfa.accept_state as int {
        losses_down_to(nfa, ev, deques, lo + 1)
    } else {
        losses_down_to(nfa, ev, deques, lo + 1) + losses(nfa, ev, lo, deques[lo])
    }
}

/// The advances that an event causes, from the last state down to `lo`.
pub open spec fn moves_down_to(
    nfa: &CompiledNfa,
    ev: EventView,
    deques: Seq<Seq<CandidateEntry>>,
    lo: int,
) -> Seq<(u16, CandidateEntry)>
    decreases deques.len() - lo,
{
    if lo >= deques.len() {
        Seq::empty()
    } else if lo == nfa.accept_state as int {
        moves_down_to(nfa, ev, deques, lo + 1)
    } else {
        moves_down_to(nfa, ev, deques, lo + 1) + state_moves(
            nfa,
            ev,
            lo,
            survivors(nfa, ev, lo, deques[lo]),
            nfa.states@[lo].transitions@.len() as int,
        )
    }
}

/// The candidates of all states after a list of advances.
pub open spec fn moved(
    deques: Seq<Seq<CandidateEntry>>,
    moves: Seq<(u16, CandidateEntry)>,
) -> Seq<Seq<CandidateEntry>>
    decreases moves.len(),
{
    if moves.len() == 0 {
        deques
    } else {
        let before = moved(deques, moves.drop_last());
        let (target, c) = moves.last();
        before.update(target as int, with_candidate(before[target as int], c))
    }
}

/// Whether an event may start a candidate.
pub open spec fn may_start(range: Option<TimeRange>, scan_from: Option<i64>, ts: i64) -> bool {
    &&& may_enter(range, ts)
    &&& (scan_from matches Some(from) ==> ts > from)
}

/// The candidates of all states after the first `k` start transitions.
pub open spec fn started(
    nfa: &CompiledNfa,
    ev: EventView,
    deques: Seq<Seq<CandidateEntry>>,
    k: int,
) -> Seq<Seq<CandidateEntry>>
    decreases k,
{
    if k <= 0 {
        deques
    } else {
        let before = started(nfa, ev, deques, k - 1);
        let target = nfa.states@[0].transitions@[k - 1].target as int;
        if fires(nfa, ev, 0, k - 1) {
            before.update(
                target,
                with_candidate(
                    before[target],
                    CandidateEntry { anchor_ts: ev.ts, last_step_ts: ev.ts },
                ),
            )
        } else {
            before
        }
    }
}

/// The larger of two steps.
pub open spec fn farther(a: u8, b: u8) -> u8 {
    if a >= b {
        a
    } else {
        b
    }
}

/// The farthest step after the first `k` start transitions.
pub open spec fn started_step(nfa: &CompiledNfa, ev: EventView, step: u8, k: int) -> u8
    decreases k,
{
    if k <= 0 {
        step
    } else {
        let before = started_step(nfa, ev, step, k - 1);
        if fires(nfa, ev, 0, k - 1) {
            farther(
                before,
                nfa.state_to_step@[nfa.states@[0].transitions@[k - 1].target as int],
            )
        } else {
            before
        }
    }
}

/// The farthest step that has a candidate among the first `n` states, or `step`.
pub open spec fn occupied_step(
    nfa: &CompiledNfa,
    deques: Seq<Seq<CandidateEntry>>,
    step: u8,
    n: int,
) -> u8
    decreases n,
{
    if n <= 0 {
        step
    } else {
        let before = occupied_step(nfa, deques, step, n - 1);
        if deques[n - 1].len() > 0 {
            farther(before, nfa.state_to_step@[n - 1])
        } else {
            before
        }
    }
}

/// The state, among the first `n`, whose front candidate has the earliest
/// anchor; the first of several.
pub open spec fn oldest_front(deques: Seq<Seq<CandidateEntry>>, n: int) -> Option<int>
    decreases n,
{
    if n <= 0 {
        None
    } else {
        let before = oldest_front(deques, n - 1);
        let d = deques[n - 1];
        let older = match before {
            Some(i) => d.len() > 0 && d[0].anchor_ts < deques[i][0].anchor_ts,
            None => d.len() > 0,
        };
        if older {
            Some(n - 1)
        } else {
            before
        }
    }
}

/// One more drop, up to the largest count.
pub open spec fn one_more(n: u64) -> u64 {
    if n < u64::MAX {
        (n + 1) as u64
    } else {
        n
    }
}

pub proof fn lemma_oldest_front(deques: Seq<Seq<CandidateEntry>>, n: int)
    requires
        0 <= n <= deques.len(),
    ensures
        oldest_front(deques, n) matches Some(i) ==> 0 <= i < n && deques[i].len() > 0,
    decreases n,
{
    if n > 0 {
        lemma_oldest_front(deques, n - 1);
    }
}

pub proof fn lemma_count_after_pop(deques: Seq<Seq<CandidateEntry>>, i: int, n: int)
    requires
        0 <= i < deques.len(),
        0 <= n <= deques.len(),
        deques[i].len() > 0,
    ensures
        candidate_count(deques.update(i, deques[i].drop_first()), n) == candidate_count(deques, n)
            - (if i < n { 1int } else { 0int }),
    decreases n,
{
    if n > 0 {
        lemma_count_after_pop(deques, i, n - 1);
    }
}

/// The candidates left, and the number dropped, when the oldest are dropped
/// until no more than `limit` remain.
pub open spec fn limited(
    deques: Seq<Seq<CandidateEntry>>,
    dropped: u64,
    limit: nat,
) -> (Seq<Seq<CandidateEntry>>, u64)
    decreases total_count(deques),
{
    match oldest_front(deques, deques.len() as int) {
        Some(i) if total_count(deques) > limit && 0 <= i < deques.len() && deques[i].len() > 0 => {
            proof {
                lemma_count_after_pop(deques, i, deques.len() as int);
            }
            limited(deques.update(i, deques[i].drop_first()), one_more(dropped), limit)
        },
        _ => (deques, dropped),
    }
}

/// The state after the accept state was checked: its first candidate becomes a
/// completed match.
pub open spec fn accepted(nfa: &CompiledNfa, match_all: bool, m: NfaModel) -> NfaModel {
    let a = nfa.accept_state as int;
    if m.deques[a].len() == 0 {
        m
    } else {
        let c = m.deques[a][0];
        let done = NfaModel {
            deques: m.deques.update(a, m.deques[a].drop_first()),
            completions: m.completions.push(
                CompletionView {
                    anchor_ts: c.anchor_ts,
                    final_ts: c.last_step_ts,
                    bindings: Seq::empty(),
                },
            ),
            max_step_reached: farther(m.max_step_reached, nfa.state_to_step@[a]),
            ..m
        };
        if match_all {
            reset_model(done, c.last_step_ts, nfa.emit_all, nfa.state_to_step@)
        } else {
            NfaModel { deques: emptied(done.deques), ..done }
        }
    }
}

/// How a simulator is set up.
pub struct NfaSetup {
    pub nfa: CompiledNfa,
    pub match_all: bool,
    pub limit: nat,
    pub entry_range: Option<TimeRange>,
}

/// The candidates of all states after expiry, poison and advances.
pub open spec fn propagated(nfa: &CompiledNfa, ev: EventView, m: NfaModel) -> NfaModel {
    NfaModel {
        deques: moved(surviving_from(nfa, ev, m.deques, 0), moves_down_to(nfa, ev, m.deques, 0)),
        partials: m.partials + losses_down_to(nfa, ev, m.deques, 0),
        ..m
    }
}

/// The state after new candidates were started.
pub open spec fn with_starts(
    nfa: &CompiledNfa,
    range: Option<TimeRange>,
    ev: EventView,
    m: NfaModel,
) -> NfaModel {
    let k = nfa.states@[0].transitions@.len() as int;
    if may_start(range, m.scan_from, ev.ts) {
        NfaModel {
            deques: started(nfa, ev, m.deques, k),
            max_step_reached: started_step(nfa, ev, m.max_step_reached, k),
            ..m
        }
    } else {
        m
    }
}

/// The state after the active-state limit was enforced.
pub open spec fn with_limit(nfa: &CompiledNfa, limit: nat, m: NfaModel) -> NfaModel {
    let (deques, dropped) = limited(m.deques, m.dropped_count, limit);
    NfaModel {
        deques,
        dropped_count: dropped,
        max_step_reached: occupied_step(nfa, deques, m.max_step_reached, deques.len() as int),
        ..m
    }
}

/// The state after one event.
pub open spec fn after_event(setup: NfaSetup, m: NfaModel, ev: EventView) -> NfaModel {
    let nfa = &setup.nfa;
    if nfa.is_relevant(ev.event_type) {
        let advanced = with_starts(nfa, setup.entry_range, ev, propagated(nfa, ev, m));
        with_limit(nfa, setup.limit, accepted(nfa, setup.match_all, advanced))
    } else {
        m
    }
}

/// Every advance leads to one of the first `n` states.
spec fn moves_within(moves: Seq<(u16, CandidateEntry)>, n: int) -> bool {
    forall|i: int| 0 <= i < moves.len() ==> (#[trigger] moves[i]).0 < n
}

proof fn lemma_advances_within(
    nfa: &CompiledNfa,
    ts: i64,
    d: Seq<CandidateEntry>,
    target: u16,
    n: int,
)
    requires
        (target as int) < nfa.states@.len(),
    ensures
        moves_within(advances(nfa, ts, d, target, n), nfa.states@.len() as int),
    decreases n,
{
    if n > 0 {
        lemma_advances_within(nfa, ts, d, target, n - 1);
    }
}

proof fn lemma_state_moves_within(
    nfa: &CompiledNfa,
    ev: EventView,
    s: int,
    d: Seq<CandidateEntry>,
    k: int,
)
    requires
        nfa.wf(),
        0 <= s < nfa.states@.len(),
        k <= nfa.states@[s].transitions@.len(),
    ensures
        moves_within(state_moves(nfa, ev, s, d, k), nfa.states@.len() as int),
    decreases k,
{
    if k > 0 {
        lemma_state_moves_within(nfa, ev, s, d, k - 1);
        let target = nfa.states@[s].transitions@[k - 1].target;
        lemma_advances_within(nfa, ev.ts, d, target, d.len() as int);
    }
}

proof fn lemma_moves_within(
    nfa: &CompiledNfa,
    ev: EventView,
    deques: Seq<Seq<CandidateEntry>>,
    lo: int,
)
    requires
        nfa.wf(),
        deques.len() == nfa.states@.len(),
        0 <= lo,
    ensures
        moves_within(moves_down_to(nfa, ev, deques, lo), nfa.states@.len() as int),
    decreases deques.len() - lo,
{
    if lo < deques.len() {
        lemma_moves_within(nfa, ev, deques, lo + 1);
        lemma_state_moves_within(
            nfa,
            ev,
            lo,
            survivors(nfa, ev, lo, deques[lo]),
            nfa.states@[lo].transitions@.len() as int,
        );
    }
}

proof fn lemma_moved_len(deques: Seq<Seq<CandidateEntry>>, moves: Seq<(u16, CandidateEntry)>)
    requires
        moves_within(moves, deques.len() as int),
    ensures
        moved(deques, moves).len() == deques.len(),
    decreases moves.len(),
{
    if moves.len() > 0 {
        assert forall|i: int| 0 <= i < moves.drop_last().len() implies (
        #[trigger] moves.drop_last()[i]).0 < deques.len() by {
            assert(moves.drop_last()[i] == moves[i]);
        }
        lemma_moved_len(deques, moves.drop_last());
        assert(moves[moves.len() - 1].0 < deques.len());
    }
}

proof fn lemma_started_len(
    nfa: &CompiledNfa,
    ev: EventView,
    deques: Seq<Seq<CandidateEntry>>,
    k: int,
)
    requires
        nfa.wf(),
        deques.len() == nfa.states@.len(),
        k <= nfa.states@[0].transitions@.len(),
    ensures
        started(nfa, ev, deques, k).len() == deques.len(),
    decreases k,
{
    if k > 0 {
        lemma_started_len(nfa, ev, deques, k - 1);
        assert(nfa.states@[0].transitions@[k - 1].target < nfa.states@.len());
    }
}

proof fn lemma_limited_len(deques: Seq<Seq<CandidateEntry>>, dropped: u64, limit: nat)
    ensures
        limited(deques, dropped, limit).0.len() == deques.len(),
    decreases total_count(deques),
{
    match oldest_front(deques, deques.len() as int) {
        Some(i) => {
            if total_count(deques) > limit && 0 <= i < deques.len() && deques[i].len() > 0 {
                lemma_count_after_pop(deques, i, deques.len() as int);
                lemma_limited_len(
                    deques.update(i, deques[i].drop_first()),
                    one_more(dropped),
                    limit,
                );
            }
        },
        None => {},
    }
}

/// Whether an event takes a forward transition.
pub(crate) fn event_matches_transition(
    nfa: &CompiledNfa,
    pred_map: &PredicateIndexMap,
    state_idx: usize,
    transition_idx: usize,
    event_type: &str,
    row: usize,
    pred_cache: &PredicateCache,
    Ghost(ev): Ghost<EventView>,
    Ghost(rows): Ghost<int>,
) -> (r: bool)
    requires
        nfa.wf(),
        pred_map.matches_nfa(nfa),
        state_idx < nfa.states@.len(),
        transition_idx < nfa.states@[state_idx as int].transitions@.len(),
        pred_cache.covers(nfa.predicate_count(), rows),
        row < rows,
        ev.event_type == event_type@,
        ev.row == row,
        ev.cache == *pred_cache,
    ensures
        r == fires(nfa, ev, state_idx as int, transition_idx as int),
{
    let transition: &Transition = &nfa.states[state_idx].transitions[transition_idx];
    if !text_eq(transition.event_type.as_str(), event_type) {
        return false;
    }
    let mut p: usize = 0;
    while p < transition.predicates.len()
        invariant
            p <= transition.predicates@.len(),
            nfa.wf(),
        pred_map.matches_nfa(nfa),
            state_idx < nfa.states@.len(),
            transition_idx < nfa.states@[state_idx as int].transitions@.len(),
            *transition
                == nfa.states@[state_idx as int].transitions@[transition_idx as int],
            pred_cache.covers(nfa.predicate_count(), rows),
            row < rows,
            ev.row == row,
            ev.cache == *pred_cache,
            forall|j: int|
                0 <= j < p ==> #[trigger] ev.cache.holds(
                    nfa.forward_index(state_idx as int, transition_idx as int, j),
                    ev.row,
                ),
        decreases transition.predicates@.len() - p,
    {
        let cache_idx: usize = pred_map.forward_predicate_idx(
            nfa,
            state_idx,
            transition_idx,
            p,
        );
        if !pred_cache.check(cache_idx, row) {
            assert(!ev.cache.holds(
                nfa.forward_index(state_idx as int, transition_idx as int, p as int),
                ev.row,
            ));
            return false;
        }
        p = p + 1;
    }
    true
}

/// Whether an event takes a poison transition of a state.
pub(crate) fn event_matches_poison(
    nfa: &CompiledNfa,
    pred_map: &PredicateIndexMap,
    state_idx: usize,
    event_type: &str,
    row: usize,
    pred_cache: &PredicateCache,
    Ghost(ev): Ghost<EventView>,
    Ghost(rows): Ghost<int>,
) -> (r: bool)
    requires
        nfa.wf(),
        pred_map.matches_nfa(nfa),
        state_idx < nfa.states@.len(),
        pred_cache.covers(nfa.predicate_count(), rows),
        row < rows,
        ev.event_type == event_type@,
        ev.row == row,
        ev.cache == *pred_cache,
    ensures
        r == poisoned(nfa, ev, state_idx as int),
{
    let poisons: &Vec<PoisonTransition> = &nfa.states[state_idx].poison_transitions;
    let mut q: usize = 0;
    while q < poisons.len()
        invariant
            q <= poisons@.len(),
            nfa.wf(),
        pred_map.matches_nfa(nfa),
            state_idx < nfa.states@.len(),
            *poisons == nfa.states@[state_idx as int].poison_transitions,
            pred_cache.covers(nfa.predicate_count(), rows),
            row < rows,
            ev.event_type == event_type@,
            ev.row == row,
            ev.cache == *pred_cache,
            forall|j: int|
                0 <= j < q ==> !(#[trigger] poison_fires(nfa, ev, state_idx as int, j)),
        decreases poisons@.len() - q,
    {
        if text_eq(poisons[q].event_type.as_str(), event_type) {
            let mut all_pass: bool = true;
            let mut p: usize = 0;
            while p < poisons[q].predicates.len() && all_pass
                invariant
                    q < poisons@.len(),
                    p <= poisons@[q as int].predicates@.len(),
                    nfa.wf(),
        pred_map.matches_nfa(nfa),
                    state_idx < nfa.states@.len(),
                    *poisons == nfa.states@[state_idx as int].poison_transitions,
                    pred_cache.covers(nfa.predicate_count(), rows),
                    row < rows,
                    ev.row == row,
                    ev.cache == *pred_cache,
                    all_pass ==> forall|j: int|
                        0 <= j < p ==> #[trigger] ev.cache.holds(
                            nfa.poison_index(state_idx as int, q as int, j),
                            ev.row,
                        ),
                    !all_pass ==> exists|j: int|
                        0 <= j < p && !(#[trigger] ev.cache.holds(
                            nfa.poison_index(state_idx as int, q as int, j),
                            ev.row,
                        )),
                decreases poisons@[q as int].predicates@.len() - p,
            {
                let cache_idx: usize = pred_map.poison_predicate_idx(
                    nfa,
                    state_idx,
                    q,
                    p,
                );
                if !pred_cache.check(cache_idx, row) {
                    all_pass = false;
                    assert(!ev.cache.holds(
                        nfa.poison_index(state_idx as int, q as int, p as int),
                        ev.row,
                    ));
                }
                p = p + 1;
            }
            if all_pass {
                assert(poison_fires(nfa, ev, state_idx as int, q as int));
                return true;
            }
        }
        q = q + 1;
    }
    false
}

/// Drives the per-entity states through a pattern. Shared by all entities.
#[derive(Debug)]
pub struct NfaSimulator {
    pub nfa: CompiledNfa,
    /// The largest number of candidates of one entity.
    pub active_state_limit: usize,
    /// Whether matching goes on after a completed match.
    pub match_all: bool,
    /// Where a match may begin.
    pub entry_range: Option<TimeRange>,
    pub pred_map: PredicateIndexMap,
}

impl NfaSimulator {
    /// The pattern is well formed and its predicates are mapped.
    pub open spec fn wf(&self) -> bool {
        &&& self.nfa.wf()
        &&& self.pred_map.matches_nfa(&self.nfa)
    }

    /// How the simulator is set up.
    pub open spec fn setup(&self) -> NfaSetup {
        NfaSetup {
            nfa: self.nfa,
            match_all: self.match_all,
            limit: self.active_state_limit as nat,
            entry_range: self.entry_range,
        }
    }

    /// A simulator with the default limit. With `match_all`, matching goes on
    /// after a completed match.
    pub fn new(nfa: CompiledNfa, match_all: bool) -> (r: Self)
        requires
            nfa.wf(),
        ensures
            r.wf(),
            r.setup() == (NfaSetup {
                nfa,
                match_all,
                limit: DEFAULT_ACTIVE_STATE_LIMIT as nat,
                entry_range: None,
            }),
    {
        let pred_map = PredicateIndexMap::build(&nfa);
        NfaSimulator {
            nfa,
            active_state_limit: DEFAULT_ACTIVE_STATE_LIMIT,
            match_all,
            entry_range: None,
            pred_map,
        }
    }

    /// The same simulator with another limit.
    pub fn with_active_state_limit(self, limit: usize) -> (r: Self)
        requires
            self.wf(),
        ensures
            r.wf(),
            r.setup() == (NfaSetup { limit: limit as nat, ..self.setup() }),
    {
        let mut r = self;
        r.active_state_limit = limit;
        r
    }

    /// The same simulator, with matches beginning inside `range` only.
    pub fn with_entry_range(self, range: Option<TimeRange>) -> (r: Self)
        requires
            self.wf(),
        ensures
            r.wf(),
            r.setup() == (NfaSetup { entry_range: range, ..self.setup() }),
    {
        let mut r = self;
        r.entry_range = range;
        r
    }

    /// The state of a new entity.
    pub fn create_state(&self) -> (r: EntityNfaState)
        ensures
            r@ == fresh_model(self.nfa.states@.len()),
    {
        EntityNfaState::new(self.nfa.states.len())
    }

    /// The pattern.
    pub fn nfa(&self) -> (r: &CompiledNfa)
        ensures
            *r == self.nfa,
    {
        &self.nfa
    }

    /// Removes the candidates of a state that have expired or are killed, and
    /// reports them where unfinished matches are reported.
    fn sweep_state(
        &self,
        state: &mut EntityNfaState,
        state_idx: usize,
        event_ts: i64,
        kill: bool,
        Ghost(ev): Ghost<EventView>,
    )
        requires
            self.wf(),
            old(state)@.deques.len() == self.nfa.states@.len(),
            state_idx < self.nfa.states@.len(),
            ev.ts == event_ts,
            kill == poisoned(&self.nfa, ev, state_idx as int),
        ensures
            final(state)@ == (NfaModel {
                deques: old(state)@.deques.update(
                    state_idx as int,
                    survivors(
                        &self.nfa,
                        ev,
                        state_idx as int,
                        old(state)@.deques[state_idx as int],
                    ),
                ),
                partials: old(state)@.partials + losses(
                    &self.nfa,
                    ev,
                    state_idx as int,
                    old(state)@.deques[state_idx as int],
                ),
                ..old(state)@
            }),
    {
        let ghost m0 = state@;
        let ghost d0 = m0.deques[state_idx as int];
        let ghost gone = outdated(&self.nfa, ev, d0);
        let ghost left = current(&self.nfa, ev, d0);
        let step: u8 = self.nfa.state_to_step[state_idx];
        proof {
            assert(partials_of(Seq::empty(), step) =~= Seq::empty());
            assert(m0.deques.update(state_idx as int, d0) =~= m0.deques);
            assert(m0.partials + Seq::empty() =~= m0.partials);
        }
        if let Some(window) = self.nfa.global_window {
            if self.nfa.emit_all {
                push_expired(
                    &mut state.partials,
                    &state.state_deques[state_idx].candidates,
                    event_ts,
                    window,
                    step,
                );
            }
            let _ = state.state_deques[state_idx].expire_window(event_ts, window);
        }
        let ghost m1 = state@;
        proof {
            assert(m1.deques =~= m0.deques.update(state_idx as int, left));
            assert(m1.deques[state_idx as int] == left);
            assert(m1.partials =~= m0.partials + (if self.nfa.emit_all {
                partials_of(gone, step)
            } else {
                Seq::empty()
            }));
            assert(m1 == (NfaModel { deques: m1.deques, partials: m1.partials, ..m0 }));
        }
        if kill {
            if self.nfa.emit_all {
                push_partials(
                    &mut state.partials,
                    &state.state_deques[state_idx].candidates,
                    step,
                );
            }
            let _ = state.state_deques[state_idx].kill_all();
        }
        proof {
            assert(state@.deques =~= m0.deques.update(
                state_idx as int,
                survivors(&self.nfa, ev, state_idx as int, d0),
            ));
            assert(state@.partials =~= m0.partials + losses(&self.nfa, ev, state_idx as int, d0));
        }
    }

    /// Collects the advances out of a state.
    fn collect_moves(
        &self,
        d: &VecDeque<CandidateEntry>,
        moves: &mut Vec<(u16, CandidateEntry)>,
        state_idx: usize,
        event_type: &str,
        event_ts: i64,
        row: usize,
        pred_cache: &PredicateCache,
        Ghost(ev): Ghost<EventView>,
        Ghost(rows): Ghost<int>,
    )
        requires
            self.wf(),
            state_idx < self.nfa.states@.len(),
            pred_cache.covers(self.nfa.predicate_count(), rows),
            row < rows,
            ev == (EventView {
                event_type: event_type@,
                ts: event_ts,
                row: row as int,
                cache: *pred_cache,
            }),
        ensures
            final(moves)@ == old(moves)@ + state_moves(
                &self.nfa,
                ev,
                state_idx as int,
                d@,
                self.nfa.states@[state_idx as int].transitions@.len() as int,
            ),
    {
        let transitions: &Vec<Transition> = &self.nfa.states[state_idx].transitions;
        let mut t: usize = 0;
        assert(moves@ =~= old(moves)@ + state_moves(&self.nfa, ev, state_idx as int, d@, 0));
        while t < transitions.len()
            invariant
                t <= transitions@.len(),
                self.wf(),
                state_idx < self.nfa.states@.len(),
                *transitions == self.nfa.states@[state_idx as int].transitions,
                pred_cache.covers(self.nfa.predicate_count(), rows),
                row < rows,
                ev == (EventView {
                    event_type: event_type@,
                    ts: event_ts,
                    row: row as int,
                    cache: *pred_cache,
                }),
                moves@ == old(moves)@ + state_moves(&self.nfa, ev, state_idx as int, d@, t as int),
            decreases transitions@.len() - t,
        {
            if event_matches_transition(
                &self.nfa,
                &self.pred_map,
                state_idx,
                t,
                event_type,
                row,
                pred_cache,
                Ghost(ev),
                Ghost(rows),
            ) {
                let target: u16 = transitions[t].target;
                let ghost before = moves@;
                let mut i: usize = 0;
                assert(moves@ =~= before + advances(&self.nfa, event_ts, d@, target, 0));
                while i < d.len()
                    invariant
                        i <= d@.len(),
                        moves@ == before + advances(&self.nfa, event_ts, d@, target, i as int),
                    decreases d@.len() - i,
                {
                    let c: CandidateEntry = d[i];
                    let inside: bool = match self.nfa.global_window {
                        Some(w) => !is_expired(event_ts, c.anchor_ts, w),
                        None => true,
                    };
                    if event_ts > c.last_step_ts && inside {
                        moves.push(
                            (target, CandidateEntry { anchor_ts: c.anchor_ts, last_step_ts: event_ts }),
                        );
                    }
                    assert(moves@ =~= before + advances(&self.nfa, event_ts, d@, target, i + 1));
                    i = i + 1;
                }
                assert(moves@ =~= old(moves)@ + state_moves(
                    &self.nfa,
                    ev,
                    state_idx as int,
                    d@,
                    t + 1,
                ));
            }
            t = t + 1;
        }
    }

    /// Drops the oldest candidates until no more than the limit remain.
    fn enforce_active_state_limit(&self, state: &mut EntityNfaState)
        ensures
            final(state)@ == (NfaModel {
                deques: limited(
                    old(state)@.deques,
                    old(state)@.dropped_count,
                    self.active_state_limit as nat,
                ).0,
                dropped_count: limited(
                    old(state)@.deques,
                    old(state)@.dropped_count,
                    self.active_state_limit as nat,
                ).1,
                ..old(state)@
            }),
    {
        let ghost m0 = state@;
        let ghost limit = self.active_state_limit as nat;
        let mut total: u128 = state.count_candidates();
        while total > self.active_state_limit as u128
            invariant_except_break
                limited(state@.deques, state@.dropped_count, limit) == limited(
                    m0.deques,
                    m0.dropped_count,
                    limit,
                ),
            invariant
                m0 == old(state)@,
                limit == self.active_state_limit,
                total == total_count(state@.deques),
                state@ == (NfaModel {
                    deques: state@.deques,
                    dropped_count: state@.dropped_count,
                    ..m0
                }),
            ensures
                limited(m0.deques, m0.dropped_count, limit) == (state@.deques, state@.dropped_count),
            decreases total,
        {
            let mut oldest: Option<usize> = None;
            let mut oldest_anchor: i64 = i64::MAX;
            let mut i: usize = 0;
            while i < state.state_deques.len()
                invariant
                    i <= state.state_deques@.len() == state@.deques.len(),
                    oldest_front(state@.deques, i as int) == (match oldest {
                        Some(k) => Some(k as int),
                        None => None,
                    }),
                    oldest matches Some(k) ==> k < i && state@.deques[k as int].len() > 0
                        && oldest_anchor == state@.deques[k as int][0].anchor_ts,
                decreases state.state_deques@.len() - i,
            {
                assert(state@.deques[i as int] == state.state_deques@[i as int]@);
                if state.state_deques[i].candidates.len() > 0 {
                    let front: CandidateEntry = state.state_deques[i].candidates[0];
                    if oldest.is_none() || front.anchor_ts < oldest_anchor {
                        oldest_anchor = front.anchor_ts;
                        oldest = Some(i);
                    }
                }
                i = i + 1;
            }
            match oldest {
                Some(k) => {
                    let ghost before = state@.deques;
                    proof {
                        lemma_count_after_pop(before, k as int, before.len() as int);
                    }
                    let _ = state.state_deques[k].candidates.pop_front();
                    state.dropped_count = state.dropped_count.saturating_add(1);
                    proof {
                        assert(state@.deques =~= before.update(k as int, before[k as int].drop_first()));
                    }
                    total = total - 1;
                },
                None => {
                    break;
                },
            }
        }
    }

    /// Applies the collected advances.
    fn apply_moves(&self, state: &mut EntityNfaState, moves: &Vec<(u16, CandidateEntry)>)
        requires
            moves_within(moves@, old(state)@.deques.len() as int),
        ensures
            final(state)@ == (NfaModel {
                deques: moved(old(state)@.deques, moves@),
                ..old(state)@
            }),
    {
        let ghost m0 = state@;
        let mut i: usize = 0;
        assert(moves@.take(0) =~= Seq::empty());
        while i < moves.len()
            invariant
                i <= moves@.len(),
                m0 == old(state)@,
                moves_within(moves@, m0.deques.len() as int),
                state@ == (NfaModel { deques: moved(m0.deques, moves@.take(i as int)), ..m0 }),
            decreases moves@.len() - i,
        {
            let (target, entry) = moves[i];
            let ghost before = state@.deques;
            proof {
                assert forall|j: int| 0 <= j < i implies (#[trigger] moves@.take(i as int)[j]).0
                    < m0.deques.len() by {
                    assert(moves@.take(i as int)[j] == moves@[j]);
                }
                lemma_moved_len(m0.deques, moves@.take(i as int));
                assert(moves@[i as int].0 < m0.deques.len());
                assert(before[target as int] == state.state_deques@[target as int]@);
            }
            state.state_deques[target as usize].insert_dedup(entry);
            proof {
                assert(state@.deques =~= before.update(
                    target as int,
                    with_candidate(before[target as int], entry),
                ));
                assert(moves@.take(i + 1).drop_last() =~= moves@.take(i as int));
            }
            i = i + 1;
        }
        assert(moves@.take(moves@.len() as int) =~= moves@);
    }

    /// Starts new candidates from state 0.
    fn start_candidates(
        &self,
        state: &mut EntityNfaState,
        event_type: &str,
        event_ts: i64,
        row: usize,
        pred_cache: &PredicateCache,
        Ghost(ev): Ghost<EventView>,
        Ghost(rows): Ghost<int>,
    )
        requires
            self.wf(),
            old(state)@.deques.len() == self.nfa.states@.len(),
            pred_cache.covers(self.nfa.predicate_count(), rows),
            row < rows,
            ev == (EventView {
                event_type: event_type@,
                ts: event_ts,
                row: row as int,
                cache: *pred_cache,
            }),
        ensures
            final(state)@ == with_starts(&self.nfa, self.entry_range, ev, old(state)@),
            final(state)@.deques.len() == self.nfa.states@.len(),
    {
        let ghost m0 = state@;
        let open: bool = match state.scan_from {
            Some(from) => event_ts > from,
            None => true,
        };
        if !open || !can_enter(&self.entry_range, event_ts) {
            return;
        }
        let transitions: &Vec<Transition> = &self.nfa.states[0].transitions;
        let mut t: usize = 0;
        while t < transitions.len()
            invariant
                t <= transitions@.len(),
                self.wf(),
                m0.deques.len() == self.nfa.states@.len(),
                *transitions == self.nfa.states@[0].transitions,
                pred_cache.covers(self.nfa.predicate_count(), rows),
                row < rows,
                ev == (EventView {
                    event_type: event_type@,
                    ts: event_ts,
                    row: row as int,
                    cache: *pred_cache,
                }),
                state@ == (NfaModel {
                    deques: started(&self.nfa, ev, m0.deques, t as int),
                    max_step_reached: started_step(&self.nfa, ev, m0.max_step_reached, t as int),
                    ..m0
                }),
            decreases transitions@.len() - t,
        {
            if event_matches_transition(
                &self.nfa,
                &self.pred_map,
                0,
                t,
                event_type,
                row,
                pred_cache,
                Ghost(ev),
                Ghost(rows),
            ) {
                let target: usize = transitions[t].target as usize;
                let ghost before = state@.deques;
                proof {
                    lemma_started_len(&self.nfa, ev, m0.deques, t as int);
                    assert(self.nfa.states@[0].transitions@[t as int].target
                        < self.nfa.states@.len());
                    assert(before[target as int] == state.state_deques@[target as int]@);
                }
                state.state_deques[target].insert_dedup(
                    CandidateEntry { anchor_ts: event_ts, last_step_ts: event_ts },
                );
                let step: u8 = self.nfa.state_to_step[target];
                if step > state.max_step_reached {
                    state.max_step_reached = step;
                }
                proof {
                    assert(state@.deques =~= started(&self.nfa, ev, m0.deques, t + 1));
                }
            }
            t = t + 1;
        }
        proof {
            lemma_started_len(&self.nfa, ev, m0.deques, transitions@.len() as int);
        }
    }

    /// Turns the first candidate of the accept state into a completed match.
    fn check_accept(&self, state: &mut EntityNfaState)
        requires
            self.wf(),
            old(state)@.deques.len() == self.nfa.states@.len(),
        ensures
            final(state)@ == accepted(&self.nfa, self.match_all, old(state)@),
            final(state)@.deques.len() == self.nfa.states@.len(),
    {
        let ghost m0 = state@;
        let accept: usize = self.nfa.accept_state as usize;
        assert(m0.deques[accept as int] == state.state_deques@[accept as int]@);
        if state.state_deques[accept].is_empty() {
            return;
        }
        let entry: CandidateEntry = state.state_deques[accept].candidates[0];
        let _ = state.state_deques[accept].candidates.pop_front();
        state.completions.push(
            MatchCompletion {
                anchor_ts: entry.anchor_ts,
                final_ts: entry.last_step_ts,
                bindings: Vec::new(),
            },
        );
        let num_steps: u8 = self.nfa.state_to_step[accept];
        if num_steps > state.max_step_reached {
            state.max_step_reached = num_steps;
        }
        proof {
            assert(state@.deques =~= m0.deques.update(
                accept as int,
                m0.deques[accept as int].drop_first(),
            ));
            assert(binding_views(state.completions@.last().bindings@) =~= Seq::empty());
            assert(state@.completions =~= m0.completions.push(state.completions@.last()@));
        }
        if self.match_all {
            state.reset_for_match_all(
                entry.last_step_ts,
                self.nfa.emit_all,
                self.nfa.state_to_step.as_slice(),
            );
        } else {
            state.clear_candidates();
        }
    }

    /// Notes the farthest step that has a candidate.
    fn note_occupied(&self, state: &mut EntityNfaState)
        requires
            self.wf(),
            old(state)@.deques.len() == self.nfa.states@.len(),
        ensures
            final(state)@ == (NfaModel {
                max_step_reached: occupied_step(
                    &self.nfa,
                    old(state)@.deques,
                    old(state)@.max_step_reached,
                    old(state)@.deques.len() as int,
                ),
                ..old(state)@
            }),
    {
        let ghost m0 = state@;
        let mut i: usize = 0;
        while i < state.state_deques.len()
            invariant
                i <= state.state_deques@.len() == m0.deques.len() == self.nfa.states@.len(),
                self.wf(),
                state@ == (NfaModel {
                    max_step_reached: occupied_step(
                        &self.nfa,
                        m0.deques,
                        m0.max_step_reached,
                        i as int,
                    ),
                    ..m0
                }),
            decreases state.state_deques@.len() - i,
        {
            assert(state@.deques[i as int] == state.state_deques@[i as int]@);
            if !state.state_deques[i].is_empty() {
                let step: u8 = self.nfa.state_to_step[i];
                if step > state.max_step_reached {
                    state.max_step_reached = step;
                }
            }
            i = i + 1;
        }
    }

    /// Applies one event.
    pub fn process_event(
        &self,
        state: &mut EntityNfaState,
        event_type: &str,
        event_ts: i64,
        row: usize,
        rows: usize,
        pred_cache: &PredicateCache,
    )
        requires
            self.wf(),
            old(state)@.deques.len() == self.nfa.states@.len(),
            pred_cache.covers(self.nfa.predicate_count(), rows as int),
            row < rows,
        ensures
            final(state)@ == after_event(
                self.setup(),
                old(state)@,
                (EventView {
                    event_type: event_type@,
                    ts: event_ts,
                    row: row as int,
                    cache: *pred_cache,
                }),
            ),
            final(state)@.deques.len() == self.nfa.states@.len(),
    {
        if !self.nfa.has_relevant(event_type) {
            return;
        }
        let ghost ev = EventView {
            event_type: event_type@,
            ts: event_ts,
            row: row as int,
            cache: *pred_cache,
        };
        let ghost m0 = state@;
        let ghost n = self.nfa.states@.len() as int;
        let accept: usize = self.nfa.accept_state as usize;
        let mut moves: Vec<(u16, CandidateEntry)> = Vec::new();
        let mut idx: usize = self.nfa.states.len();
        proof {
            assert(surviving_from(&self.nfa, ev, m0.deques, n) =~= m0.deques);
            assert(m0.partials + losses_down_to(&self.nfa, ev, m0.deques, n) =~= m0.partials);
            assert(moves@ =~= moves_down_to(&self.nfa, ev, m0.deques, n));
        }
        while idx > 0
            invariant
                idx <= n == self.nfa.states@.len(),
                self.wf(),
                accept == self.nfa.accept_state as int,
                m0.deques.len() == n,
                pred_cache.covers(self.nfa.predicate_count(), rows as int),
                row < rows,
                ev == (EventView {
                    event_type: event_type@,
                    ts: event_ts,
                    row: row as int,
                    cache: *pred_cache,
                }),
                state@ == (NfaModel {
                    deques: surviving_from(&self.nfa, ev, m0.deques, idx as int),
                    partials: m0.partials + losses_down_to(&self.nfa, ev, m0.deques, idx as int),
                    ..m0
                }),
                moves@ == moves_down_to(&self.nfa, ev, m0.deques, idx as int),
            decreases idx,
        {
            let ghost m1 = state@;
            let s: usize = idx - 1;
            if s == accept {
                proof {
                    assert(surviving_from(&self.nfa, ev, m0.deques, s as int) =~= m1.deques);
                }
            } else {
                let kill: bool = event_matches_poison(
                    &self.nfa,
                    &self.pred_map,
                    s,
                    event_type,
                    row,
                    pred_cache,
                    Ghost(ev),
                    Ghost(rows as int),
                );
                self.sweep_state(state, s, event_ts, kill, Ghost(ev));
                proof {
                    assert(m1.deques[s as int] == m0.deques[s as int]);
                    assert(state@.deques =~= surviving_from(&self.nfa, ev, m0.deques, s as int));
                    assert(state@.partials =~= m0.partials + losses_down_to(
                        &self.nfa,
                        ev,
                        m0.deques,
                        s as int,
                    ));
                    assert(state@.deques[s as int] == state.state_deques@[s as int]@);
                }
                self.collect_moves(
                    &state.state_deques[s].candidates,
                    &mut moves,
                    s,
                    event_type,
                    event_ts,
                    row,
                    pred_cache,
                    Ghost(ev),
                    Ghost(rows as int),
                );
            }
            idx = s;
        }
        proof {
            lemma_moves_within(&self.nfa, ev, m0.deques, 0);
            lemma_moved_len(state@.deques, moves@);
        }
        self.apply_moves(state, &moves);
        assert(state@ == propagated(&self.nfa, ev, m0));
        self.start_candidates(
            state,
            event_type,
            event_ts,
            row,
            pred_cache,
            Ghost(ev),
            Ghost(rows as int),
        );
        self.check_accept(state);
        proof {
            lemma_limited_len(
                state@.deques,
                state@.dropped_count,
                self.active_state_limit as nat,
            );
        }
        self.enforce_active_state_limit(state);
        self.note_occupied(state);
    }

    /// Applies the events of one sub-batch. An event without a type is skipped.
    /// When only the first match is wanted, nothing happens after it.
    pub fn process_rows(
        &self,
        state: &mut EntityNfaState,
        event_types: &Vec<Option<String>>,
        timestamps: &Vec<i64>,
        pred_cache: &PredicateCache,
    )
        requires
            self.wf(),
            old(state)@.deques.len() == self.nfa.states@.len(),
            event_types@.len() == timestamps@.len(),
            pred_cache.covers(self.nfa.predicate_count(), timestamps@.len() as int),
        ensures
            final(state)@ == after_rows(
                self.setup(),
                old(state)@,
                event_texts(event_types@),
                timestamps@,
                *pred_cache,
                0,
            ),
            final(state)@.deques.len() == self.nfa.states@.len(),
    {
        let ghost m0 = state@;
        let ghost types = event_texts(event_types@);
        let mut row: usize = 0;
        while row < timestamps.len()
            invariant
                row <= timestamps@.len(),
                self.wf(),
                m0 == old(state)@,
                types == event_texts(event_types@),
                state@.deques.len() == self.nfa.states@.len(),
                event_types@.len() == timestamps@.len(),
                pred_cache.covers(self.nfa.predicate_count(), timestamps@.len() as int),
                after_rows(self.setup(), m0, types, timestamps@, *pred_cache, 0) == after_rows(
                    self.setup(),
                    state@,
                    types,
                    timestamps@,
                    *pred_cache,
                    row as int,
                ),
            decreases timestamps@.len() - row,
        {
            if !self.match_all && state.completions.len() > 0 {
                return;
            }
            match &event_types[row] {
                Some(event_type) => {
                    self.process_event(
                        state,
                        event_type.as_str(),
                        timestamps[row],
                        row,
                        timestamps.len(),
                        pred_cache,
                    );
                },
                None => {},
            }
            row = row + 1;
        }
    }

    /// Applies the events of one sub-batch of a single entity, sorted by time.
    /// A batch without usable type and time columns is ignored.
    pub fn process_batch(
        &self,
        state: &mut EntityNfaState,
        batch: &Batch,
        event_type_col: &str,
        timestamp_col: &str,
        pred_cache: &PredicateCache,
    )
        requires
            self.wf(),
            old(state)@.deques.len() == self.nfa.states@.len(),
            pred_cache.covers(self.nfa.predicate_count(), batch_view(*batch).rows as int),
        ensures
            final(state)@ == (match event_columns(
                batch_view(*batch),
                event_type_col@,
                timestamp_col@,
            ) {
                Some((types, stamps)) => after_rows(
                    self.setup(),
                    old(state)@,
                    types,
                    stamps,
                    *pred_cache,
                    0,
                ),
                None => old(state)@,
            }),
            final(state)@.deques.len() == self.nfa.states@.len(),
    {
        match resolve_event_columns(batch, event_type_col, timestamp_col) {
            Some((types, stamps)) => self.process_rows(state, &types, &stamps, pred_cache),
            None => {},
        }
    }

    /// Ends an entity. Where unfinished matches are reported, the remaining
    /// candidates become partial matches.
    pub fn finish_entity(&self, state: EntityNfaState) -> (r: EntityNfaState)
        requires
            self.wf(),
            state@.deques.len() <= self.nfa.states@.len(),
        ensures
            r@ == finished(&self.nfa, state@),
    {
        let mut state = state;
        if self.nfa.emit_all {
            state.drain_as_partials(self.nfa.state_to_step.as_slice());
        }
        state
    }
}

/// The event types as text.
pub open spec fn event_texts(types: Seq<Option<String>>) -> Seq<Option<Seq<char>>> {
    Seq::new(
        types.len(),
        |i: int|
            match types[i] {
                Some(s) => Some(s@),
                None => None,
            },
    )
}

/// The state after the events from `row` on.
pub open spec fn after_rows(
    setup: NfaSetup,
    m: NfaModel,
    types: Seq<Option<Seq<char>>>,
    stamps: Seq<i64>,
    cache: PredicateCache,
    row: int,
) -> NfaModel
    decreases stamps.len() - row,
{
    if row >= stamps.len() || (!setup.match_all && m.completions.len() > 0) {
        m
    } else {
        let next = match types[row] {
            Some(event_type) => after_event(
                setup,
                m,
                EventView { event_type, ts: stamps[row], row, cache },
            ),
            None => m,
        };
        after_rows(setup, next, types, stamps, cache, row + 1)
    }
}

/// The state after an entity ended.
pub open spec fn finished(nfa: &CompiledNfa, m: NfaModel) -> NfaModel {
    if nfa.emit_all {
        NfaModel {
            deques: emptied(m.deques),
            partials: m.partials + drained(m.deques, nfa.state_to_step@, m.deques.len() as int),
            ..m
        }
    } else {
        m
    }
}

/// The cells of a text column as text.
pub open spec fn texts_of(cells: Seq<Option<CellView>>) -> Seq<Option<Seq<char>>> {
    Seq::new(
        cells.len(),
        |i: int|
            match cells[i] {
                Some(CellView::Str(s)) => Some(s),
                _ => None,
            },
    )
}

/// The event types and timestamps of a batch, if it has rows, its type column is
/// text and its time column holds nanosecond timestamps or integers.
pub open spec fn event_columns(
    b: BatchView,
    event_type_col: Seq<char>,
    timestamp_col: Seq<char>,
) -> Option<(Seq<Option<Seq<char>>>, Seq<i64>)> {
    match (named_column(b, event_type_col), named_column(b, timestamp_col)) {
        (Some(t), Some(s)) => {
            let stamp_kind = type_kind(s.data_type);
            if b.rows > 0 && type_kind(t.data_type) == DataKind::Utf8View && (stamp_kind
                == DataKind::TimestampNs || stamp_kind == DataKind::Int64) {
                Some((texts_of(t.cells), s.raw))
            } else {
                None
            }
        },
        _ => None,
    }
}

/// The timestamps of a column: nanosecond timestamps or plain integers.
fn resolve_timestamp_column(batch: &Batch, col_name: &str) -> (r: Option<Vec<i64>>)
    ensures
        match (r, named_column(batch_view(*batch), col_name@)) {
            (Some(v), Some(c)) => {
                &&& type_kind(c.data_type) == DataKind::TimestampNs || type_kind(c.data_type)
                    == DataKind::Int64
                &&& v@ == c.raw
                &&& v@.len() == batch_view(*batch).rows
            },
            (None, Some(c)) => type_kind(c.data_type) != DataKind::TimestampNs && type_kind(
                c.data_type,
            ) != DataKind::Int64,
            (r, None) => r is None,
        },
{
    match column_named(batch, col_name) {
        Some(col) => match timestamp_values(&col) {
            Some(v) => Some(v),
            None => int64_values(&col),
        },
        None => None,
    }
}

/// The event types and timestamps of a batch.
pub fn resolve_event_columns(batch: &Batch, event_type_col: &str, timestamp_col: &str) -> (r:
    Option<(Vec<Option<String>>, Vec<i64>)>)
    ensures
        match r {
            Some((types, stamps)) => {
                &&& event_columns(batch_view(*batch), event_type_col@, timestamp_col@) == Some(
                    (event_texts(types@), stamps@),
                )
                &&& types@.len() == stamps@.len() == batch_view(*batch).rows
            },
            None => event_columns(batch_view(*batch), event_type_col@, timestamp_col@) is None,
        },
{
    if num_rows(batch) == 0 {
        return None;
    }
    let types: Vec<Option<String>> = match column_named(batch, event_type_col) {
        Some(col) => match string_view_values(&col) {
            Some(v) => {
                proof {
                    let cells = array_view(col).cells;
                    assert(text_cells(v@).len() == cells.len());
                    assert forall|i: int| 0 <= i < v@.len() implies #[trigger] event_texts(v@)[i]
                        == texts_of(cells)[i] by {
                        assert(text_cells(v@)[i] == cells[i]);
                    }
                    assert(event_texts(v@) =~= texts_of(cells));
                }
                v
            },
            None => {
                return None;
            },
        },
        None => {
            return None;
        },
    };
    match resolve_timestamp_column(batch, timestamp_col) {
        Some(stamps) => Some((types, stamps)),
        None => None,
    }
}

} // verus!
