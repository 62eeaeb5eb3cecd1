//! The step counter: a fast path for linear patterns.
//!
//! A linear pattern needs no automaton. For every combination of bound values
//! there is one track with an anchor and the number of steps matched so far.
//! First-step events are kept in a deque, so that a track whose anchor expires
//! can continue from a later anchor.

use std::collections::VecDeque;

use smallvec::SmallVec;
use vstd::prelude::*;

use super::bindings::{BindingKey, BindingValue, BindingValueCache, BindingView, all_present,
    binding_views, bindings_agree, bound_after, bound_views, check_bindings, key_from_values,
    key_slice, option_view, same_values, try_bind_variables, vars_within};
use super::nfa::{CompletionView, EventView, MatchCompletion, PartialMatch, PartialView,
    PredicateCache, PredicateIndexMap, completion_views, event_columns, event_matches_poison,
    event_matches_transition, event_texts, expired, farther, fires, is_expired, one_more,
    partial_views, poisoned, resolve_event_columns};
use super::pattern::{CompiledNfa, TimeRange, Transition, can_enter, may_enter};
use crate::columnar::{Batch, batch_view};

verus! {

/// A first-step event that a match may begin with.
#[derive(Debug)]
pub struct Step0Entry {
    /// The timestamp of the event.
    pub anchor_ts: i64,
    /// The values that the event binds.
    pub binding_key: BindingKey,
}

/// The content of a [`Step0Entry`].
pub struct Step0View {
    pub anchor_ts: i64,
    pub key: Seq<BindingView>,
}

/// The progress of one combination of bound values.
#[derive(Debug)]
pub struct StepCounterTrack {
    /// The bound values.
    pub bindings: BindingKey,
    /// The number of steps matched, 0 when waiting for a first step.
    pub current_step: u8,
    /// The timestamp of the first step.
    pub anchor_ts: i64,
    /// The timestamp of the last step matched.
    pub last_step_ts: i64,
    /// The number of completed matches. Stays at its maximum once it gets there.
    pub match_count: u32,
    /// The farthest step reached.
    pub max_step_reached: u8,
    /// First-step events up to this time are not used any more.
    pub scan_from: i64,
    /// Whether the only wanted match is complete.
    pub done: bool,
}

/// The content of a [`StepCounterTrack`].
pub struct TrackView {
    pub bindings: Seq<BindingView>,
    pub current_step: u8,
    pub anchor_ts: i64,
    pub last_step_ts: i64,
    pub match_count: u32,
    pub max_step_reached: u8,
    pub scan_from: i64,
    pub done: bool,
}

impl View for Step0Entry {
    type V = Step0View;

    open spec fn view(&self) -> Step0View {
        Step0View { anchor_ts: self.anchor_ts, key: self.binding_key@ }
    }
}

impl View for StepCounterTrack {
    type V = TrackView;

    open spec fn view(&self) -> TrackView {
        TrackView {
            bindings: self.bindings@,
            current_step: self.current_step,
            anchor_ts: self.anchor_ts,
            last_step_ts: self.last_step_ts,
            match_count: self.match_count,
            max_step_reached: self.max_step_reached,
            scan_from: self.scan_from,
            done: self.done,
        }
    }
}

/// A new track.
pub open spec fn fresh_track(bindings: Seq<BindingView>) -> TrackView {
    TrackView {
        bindings,
        current_step: 0,
        anchor_ts: 0,
        last_step_ts: 0,
        match_count: 0,
        max_step_reached: 0,
        scan_from: i64::MIN,
        done: false,
    }
}

/// A track after its first step.
pub open spec fn started_track(t: TrackView, anchor_ts: i64) -> TrackView {
    TrackView {
        current_step: 1,
        anchor_ts,
        last_step_ts: anchor_ts,
        max_step_reached: farther(t.max_step_reached, 1),
        ..t
    }
}

impl StepCounterTrack {
    fn new(bindings: BindingKey) -> (r: Self)
        ensures
            r@ == fresh_track(bindings@),
    {
        StepCounterTrack {
            bindings,
            current_step: 0,
            anchor_ts: 0,
            last_step_ts: 0,
            match_count: 0,
            max_step_reached: 0,
            scan_from: i64::MIN,
            done: false,
        }
    }

    /// Takes the first step.
    fn start(&mut self, anchor_ts: i64)
        ensures
            final(self)@ == started_track(old(self)@, anchor_ts),
    {
        self.current_step = 1;
        self.anchor_ts = anchor_ts;
        self.last_step_ts = anchor_ts;
        if self.max_step_reached < 1 {
            self.max_step_reached = 1;
        }
    }
}

/// The tracks of one entity. Up to four are kept inline, by `smallvec`'s
/// `SmallVec`.
#[verifier::external_body]
#[derive(Debug)]
pub struct TrackList {
    inner: SmallVec<[StepCounterTrack; 4]>,
}

/// What a track list holds.
pub uninterp spec fn track_items(tracks: TrackList) -> Seq<StepCounterTrack>;

/// An empty list, by `SmallVec::new`.
#[verifier::external_body]
fn no_tracks() -> (r: TrackList)
    ensures
        track_items(r) == Seq::<StepCounterTrack>::empty(),
{
    TrackList { inner: SmallVec::new() }
}

/// The tracks in order, by `SmallVec::as_slice`.
#[verifier::external_body]
fn track_slice(tracks: &TrackList) -> (r: &[StepCounterTrack])
    ensures
        r@ == track_items(*tracks),
{
    tracks.inner.as_slice()
}

/// Adds a track at the end, by `SmallVec::push`.
#[verifier::external_body]
fn push_track(tracks: &mut TrackList, track: StepCounterTrack)
    ensures
        track_items(*final(tracks)) == track_items(*old(tracks)).push(track),
{
    tracks.inner.push(track)
}

/// Removes the track at a position, keeping the order of the others, by
/// `SmallVec::remove`.
#[verifier::external_body]
fn remove_track(tracks: &mut TrackList, i: usize) -> (r: StepCounterTrack)
    requires
        i < track_items(*old(tracks)).len(),
    ensures
        r == track_items(*old(tracks))[i as int],
        track_items(*final(tracks)) == track_items(*old(tracks)).remove(i as int),
{
    tracks.inner.remove(i)
}

/// Lets the track at a position be changed in place, by indexing a `SmallVec`.
#[verifier::external_body]
fn track_mut(tracks: &mut TrackList, i: usize) -> (r: &mut StepCounterTrack)
    requires
        i < track_items(*old(tracks)).len(),
    ensures
        *r == track_items(*old(tracks))[i as int],
        track_items(*final(tracks)) == track_items(*old(tracks)).update(i as int, *final(r)),
{
    &mut tracks.inner[i]
}

/// The contents of a list of tracks.
pub open spec fn track_views(tracks: Seq<StepCounterTrack>) -> Seq<TrackView> {
    Seq::new(tracks.len(), |i: int| tracks[i]@)
}

/// The contents of a list of first-step events.
pub open spec fn step0_views(list: Seq<Step0Entry>) -> Seq<Step0View> {
    Seq::new(list.len(), |i: int| list[i]@)
}

impl TrackList {
    /// The number of tracks.
    pub fn len(&self) -> (r: usize)
        ensures
            r == track_items(*self).len(),
    {
        track_slice(self).len()
    }

    /// The tracks in order.
    pub fn as_slice(&self) -> (r: &[StepCounterTrack])
        ensures
            r@ == track_items(*self),
    {
        track_slice(self)
    }
}

/// What the step counter knows of one entity. It persists across sub-batches.
#[derive(Debug)]
pub struct StepCounterState {
    pub tracks: TrackList,
    /// First-step events, oldest first.
    pub step0_candidates: VecDeque<Step0Entry>,
    pub completions: Vec<MatchCompletion>,
    pub partials: Vec<PartialMatch>,
    /// The number of tracks in progress. Stays within its range.
    pub active_candidate_count: u32,
    /// Whether a track was refused over the limit.
    pub cap_exceeded: bool,
    /// How many tracks were refused. Stays at its maximum once it gets there.
    pub dropped_count: u64,
}

/// The content of a [`StepCounterState`].
pub struct StepModel {
    pub tracks: Seq<TrackView>,
    pub step0: Seq<Step0View>,
    pub completions: Seq<CompletionView>,
    pub partials: Seq<PartialView>,
    pub active: u32,
    pub cap_exceeded: bool,
    pub dropped: u64,
}

impl View for StepCounterState {
    type V = StepModel;

    open spec fn view(&self) -> StepModel {
        StepModel {
            tracks: track_views(track_items(self.tracks)),
            step0: step0_views(self.step0_candidates@),
            completions: completion_views(self.completions@),
            partials: partial_views(self.partials@),
            active: self.active_candidate_count,
            cap_exceeded: self.cap_exceeded,
            dropped: self.dropped_count,
        }
    }
}

/// The state of an entity of which nothing was seen.
pub open spec fn fresh_steps() -> StepModel {
    StepModel {
        tracks: Seq::empty(),
        step0: Seq::empty(),
        completions: Seq::empty(),
        partials: Seq::empty(),
        active: 0,
        cap_exceeded: false,
        dropped: 0,
    }
}

/// The first track, from `i` on, with the given bound values.
pub open spec fn track_with(tracks: Seq<TrackView>, key: Seq<BindingView>, i: int) -> Option<int>
    decreases tracks.len() - i,
{
    if i >= tracks.len() {
        None
    } else if tracks[i].bindings == key {
        Some(i)
    } else {
        track_with(tracks, key, i + 1)
    }
}

impl StepCounterState {
    fn new() -> (r: Self)
        ensures
            r@ == fresh_steps(),
    {
        let r = StepCounterState {
            tracks: no_tracks(),
            step0_candidates: VecDeque::new(),
            completions: Vec::new(),
            partials: Vec::new(),
            active_candidate_count: 0,
            cap_exceeded: false,
            dropped_count: 0,
        };
        proof {
            assert(r@.tracks =~= Seq::empty());
            assert(r@.step0 =~= Seq::empty());
            assert(r@.completions =~= Seq::empty());
            assert(r@.partials =~= Seq::empty());
        }
        r
    }

    /// The first track with the given bound values.
    fn find_track(&self, key: &[BindingValue]) -> (r: Option<usize>)
        ensures
            track_with(self@.tracks, binding_views(key@), 0) == (match r {
                Some(i) => Some(i as int),
                None => None::<int>,
            }),
            r matches Some(i) ==> i < self@.tracks.len() && self@.tracks[i as int].bindings
                == binding_views(key@),
    {
        let tracks: &[StepCounterTrack] = track_slice(&self.tracks);
        let mut i: usize = 0;
        while i < tracks.len()
            invariant
                i <= tracks@.len(),
                tracks@ == track_items(self.tracks),
                track_with(self@.tracks, binding_views(key@), 0) == track_with(
                    self@.tracks,
                    binding_views(key@),
                    i as int,
                ),
            decreases tracks@.len() - i,
        {
            assert(self@.tracks[i as int] == tracks@[i as int]@);
            if same_values(key_slice(&tracks[i].bindings), key) {
                return Some(i);
            }
            i = i + 1;
        }
        None
    }

    /// The matches completed so far.
    pub fn completions(&self) -> (r: &[MatchCompletion])
        ensures
            r@ == self.completions@,
    {
        self.completions.as_slice()
    }

    /// The unfinished matches reported so far.
    pub fn partials(&self) -> (r: &[PartialMatch])
        ensures
            r@ == self.partials@,
    {
        self.partials.as_slice()
    }

    /// How many tracks were refused over the limit.
    pub fn dropped_count(&self) -> (r: u64)
        ensures
            r == self@.dropped,
    {
        self.dropped_count
    }
}

/// The first-step events that have not expired, in their order.
pub open spec fn step0_unexpired(d: Seq<Step0View>, event_ts: i64, window: i64) -> Seq<Step0View> {
    d.filter(|e: Step0View| !expired(event_ts, e.anchor_ts, window))
}

/// The first-step events after `scan_from`, in their order.
pub open spec fn step0_after(d: Seq<Step0View>, scan_from: i64) -> Seq<Step0View> {
    d.filter(|e: Step0View| e.anchor_ts > scan_from)
}

/// Whether a first-step event has the bound values of a track. A track without
/// bound values takes any.
pub open spec fn key_fits(e: Step0View, key: Seq<BindingView>) -> bool {
    key.len() == 0 || e.key == key
}

/// Whether a track whose anchor expired may continue from a first-step event: it
/// lies inside the window, not after the last step matched, after the last
/// consumed match, and has the track's bound values.
pub open spec fn can_rebind(
    e: Step0View,
    event_ts: i64,
    window: i64,
    last_step_ts: i64,
    scan_from: i64,
    key: Seq<BindingView>,
) -> bool {
    &&& !expired(event_ts, e.anchor_ts, window)
    &&& e.anchor_ts <= last_step_ts
    &&& e.anchor_ts > scan_from
    &&& key_fits(e, key)
}

/// The first anchor, from position `i` on, that a track may continue from.
pub open spec fn rebind_anchor(
    d: Seq<Step0View>,
    i: int,
    event_ts: i64,
    window: i64,
    last_step_ts: i64,
    scan_from: i64,
    key: Seq<BindingView>,
) -> Option<i64>
    decreases d.len() - i,
{
    if i >= d.len() {
        None
    } else if can_rebind(d[i], event_ts, window, last_step_ts, scan_from, key) {
        Some(d[i].anchor_ts)
    } else {
        rebind_anchor(d, i + 1, event_ts, window, last_step_ts, scan_from, key)
    }
}

/// The first anchor, from position `i` on, after `scan_from` and with the bound
/// values of a track.
pub open spec fn next_anchor(
    d: Seq<Step0View>,
    i: int,
    scan_from: i64,
    key: Seq<BindingView>,
) -> Option<i64>
    decreases d.len() - i,
{
    if i >= d.len() {
        None
    } else if d[i].anchor_ts > scan_from && key_fits(d[i], key) {
        Some(d[i].anchor_ts)
    } else {
        next_anchor(d, i + 1, scan_from, key)
    }
}

/// What is kept of a list is no more than the list, was in it, and is what was to be
/// kept.
proof fn lemma_step0_filter(d: Seq<Step0View>, keep: spec_fn(Step0View) -> bool)
    ensures
        d.filter(keep).len() <= d.len(),
        forall|i: int|
            0 <= i < d.filter(keep).len() ==> d.contains(#[trigger] d.filter(keep)[i]) && keep(
                d.filter(keep)[i],
            ),
    decreases d.len(),
{
    reveal(Seq::filter);
    if d.len() > 0 {
        let rest = d.drop_last();
        lemma_step0_filter(rest, keep);
        assert forall|i: int| 0 <= i < d.filter(keep).len() implies d.contains(
            #[trigger] d.filter(keep)[i],
        ) && keep(d.filter(keep)[i]) by {
            if i < rest.filter(keep).len() {
                assert(rest.contains(rest.filter(keep)[i]));
                let j = choose|j: int| 0 <= j < rest.len() && rest[j] == rest.filter(keep)[i];
                assert(d[j] == d.filter(keep)[i]);
            } else {
                assert(d[d.len() - 1] == d.filter(keep)[i]);
            }
        }
    }
}

/// Expiry leaves some of the first-step events.
pub proof fn lemma_step0_unexpired(d: Seq<Step0View>, event_ts: i64, window: i64)
    ensures
        step0_unexpired(d, event_ts, window).len() <= d.len(),
        forall|i: int|
            0 <= i < step0_unexpired(d, event_ts, window).len() ==> d.contains(
                #[trigger] step0_unexpired(d, event_ts, window)[i],
            ),
{
    lemma_step0_filter(d, |e: Step0View| !expired(event_ts, e.anchor_ts, window));
}

/// Consuming a match leaves the first-step events after it.
pub proof fn lemma_step0_after(d: Seq<Step0View>, scan_from: i64)
    ensures
        step0_after(d, scan_from).len() <= d.len(),
        forall|i: int|
            0 <= i < step0_after(d, scan_from).len() ==> d.contains(
                #[trigger] step0_after(d, scan_from)[i],
            ) && step0_after(d, scan_from)[i].anchor_ts > scan_from,
{
    lemma_step0_filter(d, |e: Step0View| e.anchor_ts > scan_from);
}

/// Whether a first-step event has the bound values of a track.
fn fits(entry: &Step0Entry, key: &[BindingValue]) -> (r: bool)
    ensures
        r == key_fits(entry@, binding_views(key@)),
{
    key.len() == 0 || same_values(key_slice(&entry.binding_key), key)
}

/// Drops the expired first-step events and finds the first anchor that a track whose
/// anchor expired may continue from.
fn find_rebind_anchor(
    step0_candidates: &mut VecDeque<Step0Entry>,
    event_ts: i64,
    window: i64,
    last_step_ts: i64,
    scan_from: i64,
    track_bindings: &[BindingValue],
) -> (r: Option<i64>)
    ensures
        step0_views(final(step0_candidates)@) == step0_unexpired(
            step0_views(old(step0_candidates)@),
            event_ts,
            window,
        ),
        r == rebind_anchor(
            step0_views(final(step0_candidates)@),
            0,
            event_ts,
            window,
            last_step_ts,
            scan_from,
            binding_views(track_bindings@),
        ),
{
    let ghost d0 = step0_views(step0_candidates@);
    let total: usize = step0_candidates.len();
    let mut n: usize = 0;
    proof {
        reveal(Seq::filter);
        assert(d0.skip(0) + step0_unexpired(d0.take(0), event_ts, window) =~= d0);
    }
    while n < total
        invariant
            n <= total == d0.len(),
            step0_views(step0_candidates@) == d0.skip(n as int) + step0_unexpired(
                d0.take(n as int),
                event_ts,
                window,
            ),
        decreases total - n,
    {
        let ghost kept = step0_unexpired(d0.take(n as int), event_ts, window);
        proof {
            reveal(Seq::filter);
            assert(step0_views(step0_candidates@).len() == step0_candidates@.len());
            assert(step0_views(step0_candidates@)[0] == d0[n as int]);
            assert(d0.take(n + 1).drop_last() =~= d0.take(n as int));
        }
        let ghost before = step0_views(step0_candidates@);
        let front: Option<Step0Entry> = step0_candidates.pop_front();
        proof {
            assert(step0_views(step0_candidates@) =~= before.drop_first());
            assert(before.drop_first() =~= d0.skip(n + 1) + kept);
        }
        match front {
            Some(entry) => {
                if !is_expired(event_ts, entry.anchor_ts, window) {
                    let ghost rest = step0_candidates@;
                    step0_candidates.push_back(entry);
                    assert(step0_views(step0_candidates@) =~= step0_views(rest).push(entry@));
                    assert(step0_views(step0_candidates@) =~= d0.skip(n + 1) + kept.push(entry@));
                }
            },
            None => {},
        }
        n = n + 1;
    }
    proof {
        assert(d0.take(total as int) =~= d0);
        assert(step0_views(step0_candidates@) =~= step0_unexpired(d0, event_ts, window));
    }
    let ghost d = step0_views(step0_candidates@);
    let ghost key = binding_views(track_bindings@);
    let mut i: usize = 0;
    while i < step0_candidates.len()
        invariant
            i <= step0_candidates@.len(),
            d == step0_views(step0_candidates@),
            key == binding_views(track_bindings@),
            d == step0_unexpired(d0, event_ts, window),
            d0 == step0_views(old(step0_candidates)@),
            rebind_anchor(d, 0, event_ts, window, last_step_ts, scan_from, key) == rebind_anchor(
                d,
                i as int,
                event_ts,
                window,
                last_step_ts,
                scan_from,
                key,
            ),
        decreases step0_candidates@.len() - i,
    {
        let entry: &Step0Entry = &step0_candidates[i];
        assert(d[i as int] == entry@);
        if !is_expired(event_ts, entry.anchor_ts, window) && entry.anchor_ts <= last_step_ts
            && entry.anchor_ts > scan_from && fits(entry, track_bindings) {
            return Some(entry.anchor_ts);
        }
        i = i + 1;
    }
    None
}

/// The first anchor after `scan_from` with the bound values of a track.
fn find_next_step0_candidate(
    step0_candidates: &VecDeque<Step0Entry>,
    scan_from: i64,
    track_bindings: &[BindingValue],
) -> (r: Option<i64>)
    ensures
        r == next_anchor(
            step0_views(step0_candidates@),
            0,
            scan_from,
            binding_views(track_bindings@),
        ),
{
    let ghost d = step0_views(step0_candidates@);
    let ghost key = binding_views(track_bindings@);
    let mut i: usize = 0;
    while i < step0_candidates.len()
        invariant
            i <= step0_candidates@.len(),
            d == step0_views(step0_candidates@),
            key == binding_views(track_bindings@),
            next_anchor(d, 0, scan_from, key) == next_anchor(d, i as int, scan_from, key),
        decreases step0_candidates@.len() - i,
    {
        let entry: &Step0Entry = &step0_candidates[i];
        assert(d[i as int] == entry@);
        if entry.anchor_ts > scan_from && fits(entry, track_bindings) {
            return Some(entry.anchor_ts);
        }
        i = i + 1;
    }
    None
}

/// Drops the first-step events that are not after `scan_from`.
fn purge_step0_candidates(step0_candidates: &mut VecDeque<Step0Entry>, scan_from: i64)
    ensures
        step0_views(final(step0_candidates)@) == step0_after(
            step0_views(old(step0_candidates)@),
            scan_from,
        ),
{
    let ghost d0 = step0_views(step0_candidates@);
    let total: usize = step0_candidates.len();
    let mut n: usize = 0;
    proof {
        reveal(Seq::filter);
        assert(d0.skip(0) + step0_after(d0.take(0), scan_from) =~= d0);
    }
    while n < total
        invariant
            n <= total == d0.len(),
            step0_views(step0_candidates@) == d0.skip(n as int) + step0_after(
                d0.take(n as int),
                scan_from,
            ),
        decreases total - n,
    {
        let ghost kept = step0_after(d0.take(n as int), scan_from);
        proof {
            reveal(Seq::filter);
            assert(step0_views(step0_candidates@).len() == step0_candidates@.len());
            assert(step0_views(step0_candidates@)[0] == d0[n as int]);
            assert(d0.take(n + 1).drop_last() =~= d0.take(n as int));
        }
        let ghost before = step0_views(step0_candidates@);
        let front: Option<Step0Entry> = step0_candidates.pop_front();
        proof {
            assert(step0_views(step0_candidates@) =~= before.drop_first());
            assert(before.drop_first() =~= d0.skip(n + 1) + kept);
        }
        match front {
            Some(entry) => {
                if entry.anchor_ts > scan_from {
                    let ghost rest = step0_candidates@;
                    step0_candidates.push_back(entry);
                    assert(step0_views(step0_candidates@) =~= step0_views(rest).push(entry@));
                    assert(step0_views(step0_candidates@) =~= d0.skip(n + 1) + kept.push(entry@));
                }
            },
            None => {},
        }
        n = n + 1;
    }
    proof {
        assert(d0.take(total as int) =~= d0);
        assert(step0_views(step0_candidates@) =~= step0_after(d0, scan_from));
    }
}

/// How a step counter is set up.
pub struct StepSetup {
    pub nfa: CompiledNfa,
    pub match_all: bool,
    pub limit: nat,
    pub entry_range: Option<TimeRange>,
}

/// A linear pattern: between 1 and 255 steps, nothing after the last one, and a
/// first step that binds only the pattern's variables.
pub open spec fn linear_wf(nfa: &CompiledNfa) -> bool {
    &&& nfa.wf()
    &&& 1 <= nfa.accept_state <= 255
    &&& nfa.states@[nfa.accept_state as int].transitions@.len() == 0
    &&& nfa.variable_bindings@.len() > 0 && nfa.states@[0].transitions@.len() > 0 ==> vars_within(
        nfa.states@[0].transitions@[0].bind_variables@,
        nfa.variable_bindings@.len() as int,
    )
}

/// No track has matched more steps than the pattern has.
pub open spec fn tracks_ok(nfa: &CompiledNfa, tracks: Seq<TrackView>) -> bool {
    forall|i: int| 0 <= i < tracks.len() ==> (#[trigger] tracks[i]).current_step <= nfa.accept_state
}

/// Whether an event takes the (only) transition of state `s`.
pub open spec fn takes(nfa: &CompiledNfa, ev: EventView, s: int) -> bool {
    nfa.states@[s].transitions@.len() > 0 && fires(nfa, ev, s, 0)
}

/// Whether the values on a row agree with the values bound to a track.
pub open spec fn advance_agrees(
    tr: Transition,
    key: Seq<BindingView>,
    bindings: BindingValueCache,
    row: int,
) -> bool {
    &&& bindings_agree(tr.check_variables@, key, bindings, row)
    &&& forall|i: int|
        0 <= i < tr.bind_variables@.len() && (#[trigger] tr.bind_variables@[i]) < key.len()
            ==> bindings.value_at(tr.bind_variables@[i] as int, row) == Some(
            key[tr.bind_variables@[i] as int],
        )
}

/// One less, but not below 0.
pub open spec fn one_less(n: u32) -> u32 {
    if n > 0 {
        (n - 1) as u32
    } else {
        n
    }
}

/// One more, up to the largest count.
pub open spec fn one_more_u32(n: u32) -> u32 {
    if n < u32::MAX {
        (n + 1) as u32
    } else {
        n
    }
}

/// The state after track `i` completed a match.
pub open spec fn completed(match_all: bool, m: StepModel, i: int, event_ts: i64) -> StepModel {
    let t = m.tracks[i];
    let counted = TrackView { match_count: one_more_u32(t.match_count), ..t };
    let completions = m.completions.push(
        CompletionView { anchor_ts: t.anchor_ts, final_ts: event_ts, bindings: Seq::empty() },
    );
    if match_all {
        let waiting = TrackView {
            scan_from: event_ts,
            current_step: 0,
            anchor_ts: 0,
            last_step_ts: 0,
            ..counted
        };
        let step0 = step0_after(m.step0, event_ts);
        match next_anchor(step0, 0, event_ts, t.bindings) {
            Some(anchor) => StepModel {
                completions,
                step0,
                tracks: m.tracks.update(i, started_track(waiting, anchor)),
                ..m
            },
            None => StepModel {
                completions,
                step0,
                tracks: m.tracks.update(i, waiting),
                active: one_less(m.active),
                ..m
            },
        }
    } else {
        StepModel {
            completions,
            tracks: m.tracks.update(i, TrackView { done: true, ..counted }),
            active: one_less(m.active),
            ..m
        }
    }
}

/// The state after a track was reported as unfinished, where that is wanted.
pub open spec fn reported(nfa: &CompiledNfa, m: StepModel, t: TrackView) -> StepModel {
    if nfa.emit_all {
        StepModel {
            partials: m.partials.push(
                PartialView {
                    anchor_ts: t.anchor_ts,
                    step_reached: t.max_step_reached,
                    bindings: Seq::empty(),
                },
            ),
            ..m
        }
    } else {
        m
    }
}

/// The state after track `i`, whose anchor may have expired, looked for a later
/// anchor; and whether it has a valid one.
pub open spec fn rebound(nfa: &CompiledNfa, m: StepModel, i: int, event_ts: i64) -> (
    StepModel,
    bool,
) {
    let t = m.tracks[i];
    match nfa.global_window {
        Some(w) => if expired(event_ts, t.anchor_ts, w) {
            let step0 = step0_unexpired(m.step0, event_ts, w);
            match rebind_anchor(
                step0,
                0,
                event_ts,
                w,
                t.last_step_ts,
                t.scan_from,
                t.bindings,
            ) {
                Some(anchor) => (
                    StepModel {
                        step0,
                        tracks: m.tracks.update(i, TrackView { anchor_ts: anchor, ..t }),
                        ..m
                    },
                    true,
                ),
                None => (StepModel { step0, ..m }, false),
            }
        } else {
            (m, true)
        },
        None => (m, true),
    }
}

/// The state after track `i` advanced by one step.
pub open spec fn stepped(setup: StepSetup, m: StepModel, i: int, event_ts: i64) -> StepModel {
    let t = m.tracks[i];
    let step = (t.current_step + 1) as u8;
    let m1 = StepModel {
        tracks: m.tracks.update(
            i,
            TrackView {
                current_step: step,
                last_step_ts: event_ts,
                max_step_reached: farther(t.max_step_reached, step),
                ..t
            },
        ),
        ..m
    };
    if step == setup.nfa.accept_state {
        completed(setup.match_all, m1, i, event_ts)
    } else {
        m1
    }
}

/// The state after track `i` has seen an event; and whether the track stays.
pub open spec fn visited(
    setup: StepSetup,
    m: StepModel,
    i: int,
    ev: EventView,
    bindings: BindingValueCache,
) -> (StepModel, bool) {
    let nfa = &setup.nfa;
    let t = m.tracks[i];
    if t.done || t.current_step == 0 {
        (m, true)
    } else {
        let s = t.current_step as int;
        let (m1, valid) = rebound(nfa, m, i, ev.ts);
        if !valid || poisoned(nfa, ev, s) {
            (reported(nfa, m1, m1.tracks[i]), false)
        } else if takes(nfa, ev, s) && ev.ts > t.last_step_ts && advance_agrees(
            nfa.states@[s].transitions@[0],
            t.bindings,
            bindings,
            ev.row,
        ) {
            (stepped(setup, m1, i, ev.ts), true)
        } else {
            (m1, true)
        }
    }
}

/// The state after the tracks from `i` on have seen an event.
pub open spec fn swept(
    setup: StepSetup,
    m: StepModel,
    i: int,
    ev: EventView,
    bindings: BindingValueCache,
) -> StepModel
    decreases m.tracks.len() - i,
    when 0 <= i
{
    if i >= m.tracks.len() {
        m
    } else {
        proof {
            lemma_visited_len(setup, m, i, ev, bindings);
        }
        let (m1, stays) = visited(setup, m, i, ev, bindings);
        if stays {
            swept(setup, m1, i + 1, ev, bindings)
        } else {
            swept(
                setup,
                StepModel { tracks: m1.tracks.remove(i), active: one_less(m1.active), ..m1 },
                i,
                ev,
                bindings,
            )
        }
    }
}

pub proof fn lemma_visited_len(
    setup: StepSetup,
    m: StepModel,
    i: int,
    ev: EventView,
    bindings: BindingValueCache,
)
    requires
        0 <= i < m.tracks.len(),
    ensures
        visited(setup, m, i, ev, bindings).0.tracks.len() == m.tracks.len(),
{
}

/// The bound values in variable order, unbound variables left out.
pub open spec fn dense(bound: Seq<Option<BindingView>>, n: int) -> Seq<BindingView>
    decreases n,
{
    if n <= 0 {
        Seq::empty()
    } else {
        match bound[n - 1] {
            Some(v) => dense(bound, n - 1).push(v),
            None => dense(bound, n - 1),
        }
    }
}

/// The values that a first-step event binds, unless one of them is null.
pub open spec fn step0_key(
    nfa: &CompiledNfa,
    bindings: BindingValueCache,
    row: int,
) -> Option<Seq<BindingView>> {
    let n = nfa.variable_bindings@.len();
    let vars = nfa.states@[0].transitions@[0].bind_variables@;
    if n == 0 {
        Some(Seq::empty())
    } else if all_present(vars, bindings, row, vars.len() as int) {
        let unbound = Seq::new(n, |i: int| None::<BindingView>);
        Some(dense(bound_after(unbound, vars, bindings, row, vars.len() as int), n as int))
    } else {
        None
    }
}

/// The state after a first-step event with the given bound values.
pub open spec fn entered(
    setup: StepSetup,
    m: StepModel,
    event_ts: i64,
    key: Seq<BindingView>,
) -> StepModel {
    let found = track_with(m.tracks, key, 0);
    let kept = StepModel {
        step0: if m.step0.len() < setup.limit {
            m.step0.push(Step0View { anchor_ts: event_ts, key })
        } else {
            m.step0
        },
        ..m
    };
    match found {
        Some(i) => {
            let t = m.tracks[i];
            if event_ts <= t.scan_from || (!setup.match_all && t.done) {
                m
            } else if t.current_step == 0 && !t.done {
                let m1 = StepModel {
                    tracks: m.tracks.update(i, started_track(t, event_ts)),
                    active: one_more_u32(m.active),
                    ..kept
                };
                if setup.nfa.accept_state == 1 {
                    completed(setup.match_all, m1, i, event_ts)
                } else {
                    m1
                }
            } else {
                kept
            }
        },
        None => if event_ts == i64::MIN {
            m
        } else if m.tracks.len() >= setup.limit {
            StepModel { cap_exceeded: true, dropped: one_more(m.dropped), ..kept }
        } else {
            let m1 = StepModel {
                tracks: m.tracks.push(started_track(fresh_track(key), event_ts)),
                active: one_more_u32(m.active),
                ..kept
            };
            if setup.nfa.accept_state == 1 {
                completed(setup.match_all, m1, m.tracks.len() as int, event_ts)
            } else {
                m1
            }
        },
    }
}

/// The state after an event was considered as a first step.
pub open spec fn with_step0(
    setup: StepSetup,
    m: StepModel,
    ev: EventView,
    bindings: BindingValueCache,
) -> StepModel {
    if takes(&setup.nfa, ev, 0) && may_enter(setup.entry_range, ev.ts) {
        match step0_key(&setup.nfa, bindings, ev.row) {
            Some(key) => entered(setup, m, ev.ts, key),
            None => m,
        }
    } else {
        m
    }
}

/// The state after one event: existing tracks first, then a new first step.
pub open spec fn after_step_event(
    setup: StepSetup,
    m: StepModel,
    ev: EventView,
    bindings: BindingValueCache,
) -> StepModel {
    if setup.nfa.is_relevant(ev.event_type) {
        with_step0(setup, swept(setup, m, 0, ev, bindings), ev, bindings)
    } else {
        m
    }
}

/// The state after the events from `row` on.
pub open spec fn after_step_rows(
    setup: StepSetup,
    m: StepModel,
    types: Seq<Option<Seq<char>>>,
    stamps: Seq<i64>,
    cache: PredicateCache,
    bindings: BindingValueCache,
    row: int,
) -> StepModel
    decreases stamps.len() - row,
{
    if row >= stamps.len() || (!setup.match_all && m.completions.len() > 0) {
        m
    } else {
        let next = match types[row] {
            Some(event_type) => after_step_event(
                setup,
                m,
                EventView { event_type, ts: stamps[row], row, cache },
                bindings,
            ),
            None => m,
        };
        after_step_rows(setup, next, types, stamps, cache, bindings, row + 1)
    }
}

/// The first `n` tracks that are still in progress, reported as unfinished.
pub open spec fn open_tracks(tracks: Seq<TrackView>, n: int) -> Seq<PartialView>
    decreases n,
{
    if n <= 0 {
        Seq::empty()
    } else {
        let before = open_tracks(tracks, n - 1);
        let t = tracks[n - 1];
        if t.current_step > 0 && !t.done {
            before.push(
                PartialView {
                    anchor_ts: t.anchor_ts,
                    step_reached: t.max_step_reached,
                    bindings: Seq::empty(),
                },
            )
        } else {
            before
        }
    }
}

/// The state after an entity ended.
pub open spec fn finished_steps(nfa: &CompiledNfa, m: StepModel) -> StepModel {
    if nfa.emit_all {
        StepModel {
            partials: m.partials + open_tracks(m.tracks, m.tracks.len() as int),
            ..m
        }
    } else {
        m
    }
}

/// Drives the per-entity states of a linear pattern. Shared by all entities.
#[derive(Debug)]
pub struct StepCounterSimulator {
    pub nfa: CompiledNfa,
    /// The number of steps of the pattern.
    pub num_steps: u8,
    /// Whether matching goes on after a completed match.
    pub match_all: bool,
    /// The largest number of tracks, and of first-step events, of one entity.
    pub active_state_limit: usize,
    /// Where a match may begin.
    pub entry_range: Option<TimeRange>,
    pub pred_map: PredicateIndexMap,
}

impl StepCounterSimulator {
    /// The pattern is linear and its predicates are mapped.
    pub open spec fn wf(&self) -> bool {
        &&& linear_wf(&self.nfa)
        &&& self.num_steps == self.nfa.accept_state
        &&& self.pred_map.matches_nfa(&self.nfa)
    }

    /// How the step counter is set up.
    pub open spec fn setup(&self) -> StepSetup {
        StepSetup {
            nfa: self.nfa,
            match_all: self.match_all,
            limit: self.active_state_limit as nat,
            entry_range: self.entry_range,
        }
    }

    /// A step counter with a limit of 10 000. With `match_all`, matching goes on
    /// after a completed match.
    pub fn new(nfa: CompiledNfa, match_all: bool) -> (r: Self)
        requires
            linear_wf(&nfa),
        ensures
            r.wf(),
            r.setup() == (StepSetup { nfa, match_all, limit: 10_000, entry_range: None }),
    {
        let pred_map = PredicateIndexMap::build(&nfa);
        let num_steps: u8 = nfa.accept_state as u8;
        StepCounterSimulator {
            nfa,
            num_steps,
            match_all,
            active_state_limit: 10_000,
            entry_range: None,
            pred_map,
        }
    }

    /// The same step counter with another limit.
    pub fn with_active_state_limit(self, limit: usize) -> (r: Self)
        requires
            self.wf(),
        ensures
            r.wf(),
            r.setup() == (StepSetup { limit: limit as nat, ..self.setup() }),
    {
        let mut r = self;
        r.active_state_limit = limit;
        r
    }

    /// The same step counter, with matches beginning inside `range` only.
    pub fn with_entry_range(self, range: Option<TimeRange>) -> (r: Self)
        requires
            self.wf(),
        ensures
            r.wf(),
            r.setup() == (StepSetup { entry_range: range, ..self.setup() }),
    {
        let mut r = self;
        r.entry_range = range;
        r
    }

    /// The limit on tracks.
    pub fn active_state_limit(&self) -> (r: usize)
        ensures
            r == self.setup().limit,
    {
        self.active_state_limit
    }

    /// The state of a new entity.
    pub fn create_state(&self) -> (r: StepCounterState)
        ensures
            r@ == fresh_steps(),
    {
        StepCounterState::new()
    }

    /// The pattern.
    pub fn nfa(&self) -> (r: &CompiledNfa)
        ensures
            *r == self.nfa,
    {
        &self.nfa
    }

    /// Whether matching goes on after a completed match.
    pub fn is_match_all(&self) -> (r: bool)
        ensures
            r == self.setup().match_all,
    {
        self.match_all
    }

    /// Handles a match completed by track `track_idx`.
    fn on_match_complete(&self, state: &mut StepCounterState, track_idx: usize, event_ts: i64)
        requires
            track_idx < old(state)@.tracks.len(),
        ensures
            final(state)@ == completed(self.match_all, old(state)@, track_idx as int, event_ts),
    {
        let ghost m0 = state@;
        let ghost i = track_idx as int;
        let anchor_ts: i64 = track_slice(&state.tracks)[track_idx].anchor_ts;
        assert(m0.tracks[i] == track_items(state.tracks)[i]@);
        state.completions.push(
            MatchCompletion { anchor_ts, final_ts: event_ts, bindings: Vec::new() },
        );
        proof {
            assert(binding_views(state.completions@.last().bindings@) =~= Seq::empty());
            assert(state@.completions =~= m0.completions.push(state.completions@.last()@));
        }
        let track: &mut StepCounterTrack = track_mut(&mut state.tracks, track_idx);
        track.match_count = track.match_count.saturating_add(1);
        if self.match_all {
            track.scan_from = event_ts;
            track.current_step = 0;
            track.anchor_ts = 0;
            track.last_step_ts = 0;
            let ghost m1 = state@;
            assert(m1.tracks =~= m0.tracks.update(i, m1.tracks[i]));
            purge_step0_candidates(&mut state.step0_candidates, event_ts);
            let next: Option<i64> = find_next_step0_candidate(
                &state.step0_candidates,
                event_ts,
                key_slice(&track_slice(&state.tracks)[track_idx].bindings),
            );
            match next {
                Some(new_anchor) => {
                    let restarted: &mut StepCounterTrack = track_mut(&mut state.tracks, track_idx);
                    restarted.start(new_anchor);
                    assert(state@.tracks =~= m0.tracks.update(
                        i,
                        started_track(m1.tracks[i], new_anchor),
                    ));
                },
                None => {
                    state.active_candidate_count = state.active_candidate_count.saturating_sub(1);
                },
            }
        } else {
            track.done = true;
            state.active_candidate_count = state.active_candidate_count.saturating_sub(1);
            assert(state@.tracks =~= m0.tracks.update(i, state@.tracks[i]));
        }
    }

    /// Whether the values on a row agree with the values bound to a track.
    fn check_binding_advance(
        &self,
        track_bindings: &[BindingValue],
        transition: &Transition,
        binding_cache: &BindingValueCache,
        row: usize,
    ) -> (r: bool)
        ensures
            r == advance_agrees(
                *transition,
                binding_views(track_bindings@),
                *binding_cache,
                row as int,
            ),
    {
        if transition.check_variables.len() > 0 && !check_bindings(
            &transition.check_variables,
            track_bindings,
            binding_cache,
            row,
        ) {
            return false;
        }
        let ghost key = binding_views(track_bindings@);
        let mut i: usize = 0;
        while i < transition.bind_variables.len()
            invariant
                i <= transition.bind_variables@.len(),
                key == binding_views(track_bindings@),
                bindings_agree(transition.check_variables@, key, *binding_cache, row as int),
                forall|j: int|
                    0 <= j < i && (#[trigger] transition.bind_variables@[j]) < key.len()
                        ==> binding_cache.value_at(
                        transition.bind_variables@[j] as int,
                        row as int,
                    ) == Some(key[transition.bind_variables@[j] as int]),
            decreases transition.bind_variables@.len() - i,
        {
            let var: usize = transition.bind_variables[i];
            if var < track_bindings.len() {
                let agrees: bool = match binding_cache.get(var, row) {
                    Some(v) => v.same(&track_bindings[var]),
                    None => false,
                };
                if !agrees {
                    assert(transition.bind_variables@[i as int] < key.len());
                    return false;
                }
            }
            i = i + 1;
        }
        true
    }

    /// Reports a track as unfinished, where that is wanted.
    fn report_track(&self, state: &mut StepCounterState, track_idx: usize)
        requires
            track_idx < old(state)@.tracks.len(),
        ensures
            final(state)@ == reported(
                &self.nfa,
                old(state)@,
                old(state)@.tracks[track_idx as int],
            ),
    {
        let ghost m0 = state@;
        assert(m0.tracks[track_idx as int] == track_items(state.tracks)[track_idx as int]@);
        if self.nfa.emit_all {
            let track: &StepCounterTrack = &track_slice(&state.tracks)[track_idx];
            state.partials.push(
                PartialMatch {
                    anchor_ts: track.anchor_ts,
                    step_reached: track.max_step_reached,
                    bindings: Vec::new(),
                },
            );
            proof {
                assert(binding_views(state.partials@.last().bindings@) =~= Seq::empty());
                assert(state@.partials =~= m0.partials.push(state.partials@.last()@));
            }
        }
    }

    /// Looks for a later anchor where the anchor of a track has expired. Returns
    /// whether the track has a valid anchor.
    fn rebind_track(&self, state: &mut StepCounterState, track_idx: usize, event_ts: i64) -> (r:
        bool)
        requires
            track_idx < old(state)@.tracks.len(),
        ensures
            (final(state)@, r) == rebound(&self.nfa, old(state)@, track_idx as int, event_ts),
    {
        let ghost m0 = state@;
        let ghost i = track_idx as int;
        assert(m0.tracks[i] == track_items(state.tracks)[i]@);
        match self.nfa.global_window {
            Some(window) => {
                let track: &StepCounterTrack = &track_slice(&state.tracks)[track_idx];
                if !is_expired(event_ts, track.anchor_ts, window) {
                    return true;
                }
                match find_rebind_anchor(
                    &mut state.step0_candidates,
                    event_ts,
                    window,
                    track.last_step_ts,
                    track.scan_from,
                    key_slice(&track.bindings),
                ) {
                    Some(new_anchor) => {
                        let rebound_track: &mut StepCounterTrack = track_mut(
                            &mut state.tracks,
                            track_idx,
                        );
                        rebound_track.anchor_ts = new_anchor;
                        assert(state@.tracks =~= m0.tracks.update(i, state@.tracks[i]));
                        true
                    },
                    None => false,
                }
            },
            None => true,
        }
    }

    /// Shows an event to a track. Returns whether the track stays.
    fn visit_track(
        &self,
        state: &mut StepCounterState,
        track_idx: usize,
        event_type: &str,
        event_ts: i64,
        row: usize,
        pred_cache: &PredicateCache,
        binding_cache: &BindingValueCache,
        Ghost(ev): Ghost<EventView>,
        Ghost(rows): Ghost<int>,
    ) -> (r: bool)
        requires
            self.wf(),
            track_idx < old(state)@.tracks.len(),
            tracks_ok(&self.nfa, old(state)@.tracks),
            pred_cache.covers(self.nfa.predicate_count(), rows),
            row < rows,
            ev == (EventView {
                event_type: event_type@,
                ts: event_ts,
                row: row as int,
                cache: *pred_cache,
            }),
        ensures
            (final(state)@, r) == visited(
                self.setup(),
                old(state)@,
                track_idx as int,
                ev,
                *binding_cache,
            ),
            tracks_ok(&self.nfa, final(state)@.tracks),
    {
        let ghost m0 = state@;
        let ghost i = track_idx as int;
        assert(m0.tracks[i] == track_items(state.tracks)[i]@);
        let track: &StepCounterTrack = &track_slice(&state.tracks)[track_idx];
        if track.done || track.current_step == 0 {
            return true;
        }
        let step: usize = track.current_step as usize;
        let last_step_ts: i64 = track.last_step_ts;
        if !self.rebind_track(state, track_idx, event_ts) {
            self.report_track(state, track_idx);
            return false;
        }
        let ghost m1 = state@;
        assert(m1.tracks.len() == m0.tracks.len());
        assert(m1.tracks[i] == track_items(state.tracks)[i]@);
        assert(tracks_ok(&self.nfa, m1.tracks));
        if event_matches_poison(
            &self.nfa,
            &self.pred_map,
            step,
            event_type,
            row,
            pred_cache,
            Ghost(ev),
            Ghost(rows),
        ) {
            self.report_track(state, track_idx);
            return false;
        }
        if self.nfa.states[step].transitions.len() == 0 {
            return true;
        }
        if !event_matches_transition(
            &self.nfa,
            &self.pred_map,
            step,
            0,
            event_type,
            row,
            pred_cache,
            Ghost(ev),
            Ghost(rows),
        ) || event_ts <= last_step_ts || !self.check_binding_advance(
            key_slice(&track_slice(&state.tracks)[track_idx].bindings),
            &self.nfa.states[step].transitions[0],
            binding_cache,
            row,
        ) {
            return true;
        }
        let advancing: &mut StepCounterTrack = track_mut(&mut state.tracks, track_idx);
        let new_step: u8 = advancing.current_step + 1;
        advancing.current_step = new_step;
        advancing.last_step_ts = event_ts;
        if new_step > advancing.max_step_reached {
            advancing.max_step_reached = new_step;
        }
        assert(state@.tracks =~= m1.tracks.update(i, state@.tracks[i]));
        if new_step == self.num_steps {
            self.on_match_complete(state, track_idx, event_ts);
        }
        true
    }

    /// Considers an event as a first step.
    fn check_step0(
        &self,
        state: &mut StepCounterState,
        event_type: &str,
        event_ts: i64,
        row: usize,
        pred_cache: &PredicateCache,
        binding_cache: &BindingValueCache,
        Ghost(ev): Ghost<EventView>,
        Ghost(rows): Ghost<int>,
    )
        requires
            self.wf(),
            tracks_ok(&self.nfa, old(state)@.tracks),
            pred_cache.covers(self.nfa.predicate_count(), rows),
            row < rows,
            ev == (EventView {
                event_type: event_type@,
                ts: event_ts,
                row: row as int,
                cache: *pred_cache,
            }),
        ensures
            final(state)@ == with_step0(self.setup(), old(state)@, ev, *binding_cache),
            tracks_ok(&self.nfa, final(state)@.tracks),
    {
        if self.nfa.states[0].transitions.len() == 0 {
            return;
        }
        if !event_matches_transition(
            &self.nfa,
            &self.pred_map,
            0,
            0,
            event_type,
            row,
            pred_cache,
            Ghost(ev),
            Ghost(rows),
        ) || !can_enter(&self.entry_range, event_ts) {
            return;
        }
        match self.bind_step0(binding_cache, row) {
            Some(key) => self.enter(state, event_ts, key),
            None => {},
        }
    }

    /// The values that a first-step event binds, unless one of them is null.
    fn bind_step0(&self, binding_cache: &BindingValueCache, row: usize) -> (r: Option<BindingKey>)
        requires
            self.wf(),
            self.nfa.states@[0].transitions@.len() > 0,
        ensures
            step0_key(&self.nfa, *binding_cache, row as int) == (match r {
                Some(key) => Some(key@),
                None => None,
            }),
    {
        let num_vars: usize = self.nfa.variable_bindings.len();
        let mut bound: Vec<Option<BindingValue>> = Vec::new();
        let mut i: usize = 0;
        while i < num_vars
            invariant
                i <= num_vars,
                bound@.len() == i,
                forall|j: int| 0 <= j < i ==> (#[trigger] bound@[j]) is None,
            decreases num_vars - i,
        {
            bound.push(None);
            i = i + 1;
        }
        let ghost unbound = Seq::new(num_vars as nat, |i: int| None::<BindingView>);
        assert(bound_views(bound@) =~= unbound);
        if num_vars > 0 && !try_bind_variables(
            &self.nfa.states[0].transitions[0].bind_variables,
            &mut bound,
            binding_cache,
            row,
        ) {
            return None;
        }
        let ghost views = bound_views(bound@);
        let mut values: Vec<BindingValue> = Vec::new();
        let mut j: usize = 0;
        assert(binding_views(values@) =~= dense(views, 0));
        while j < bound.len()
            invariant
                j <= bound@.len(),
                views == bound_views(bound@),
                binding_views(values@) == dense(views, j as int),
            decreases bound@.len() - j,
        {
            assert(views[j as int] == option_view(bound@[j as int]));
            if let Some(v) = &bound[j] {
                let ghost before = values@;
                values.push(v.duplicate());
                assert(binding_views(values@) =~= binding_views(before).push(v@));
            }
            j = j + 1;
        }
        Some(key_from_values(values))
    }

    /// Creates or restarts the track of the given bound values.
    fn enter(&self, state: &mut StepCounterState, event_ts: i64, key: BindingKey)
        requires
            self.wf(),
            tracks_ok(&self.nfa, old(state)@.tracks),
        ensures
            final(state)@ == entered(self.setup(), old(state)@, event_ts, key@),
            tracks_ok(&self.nfa, final(state)@.tracks),
    {
        let ghost m0 = state@;
        let found: Option<usize> = state.find_track(key_slice(&key));
        let scan_from: i64 = match found {
            Some(idx) => track_slice(&state.tracks)[idx].scan_from,
            None => i64::MIN,
        };
        proof {
            if let Some(idx) = found {
                assert(m0.tracks[idx as int] == track_items(state.tracks)[idx as int]@);
            }
        }
        if event_ts <= scan_from {
            return;
        }
        if !self.match_all {
            if let Some(idx) = found {
                if track_slice(&state.tracks)[idx].done {
                    return;
                }
            }
        }
        if state.step0_candidates.len() < self.active_state_limit {
            state.step0_candidates.push_back(
                Step0Entry { anchor_ts: event_ts, binding_key: key.duplicate() },
            );
            assert(state@.step0 =~= m0.step0.push(
                Step0View { anchor_ts: event_ts, key: key@ },
            ));
        }
        let ghost m1 = state@;
        match found {
            Some(idx) => {
                let ghost i = idx as int;
                let current_step: u8 = track_slice(&state.tracks)[idx].current_step;
                let done: bool = track_slice(&state.tracks)[idx].done;
                if current_step == 0 && !done {
                    let track: &mut StepCounterTrack = track_mut(&mut state.tracks, idx);
                    track.start(event_ts);
                    state.active_candidate_count = state.active_candidate_count.saturating_add(1);
                    assert(state@.tracks =~= m1.tracks.update(i, state@.tracks[i]));
                    if self.num_steps == 1 {
                        self.on_match_complete(state, idx, event_ts);
                    }
                }
            },
            None => {
                if state.tracks.len() >= self.active_state_limit {
                    state.cap_exceeded = true;
                    state.dropped_count = state.dropped_count.saturating_add(1);
                    return;
                }
                let new_idx: usize = state.tracks.len();
                let mut new_track = StepCounterTrack::new(key);
                new_track.start(event_ts);
                let ghost started = new_track@;
                push_track(&mut state.tracks, new_track);
                state.active_candidate_count = state.active_candidate_count.saturating_add(1);
                assert(state@.tracks =~= m1.tracks.push(started));
                if self.num_steps == 1 {
                    self.on_match_complete(state, new_idx, event_ts);
                }
            },
        }
    }

    /// Applies one event.
    pub fn process_event(
        &self,
        state: &mut StepCounterState,
        event_type: &str,
        event_ts: i64,
        row: usize,
        rows: usize,
        pred_cache: &PredicateCache,
        binding_cache: &BindingValueCache,
    )
        requires
            self.wf(),
            tracks_ok(&self.nfa, old(state)@.tracks),
            pred_cache.covers(self.nfa.predicate_count(), rows as int),
            row < rows,
        ensures
            final(state)@ == after_step_event(
                self.setup(),
                old(state)@,
                (EventView {
                    event_type: event_type@,
                    ts: event_ts,
                    row: row as int,
                    cache: *pred_cache,
                }),
                *binding_cache,
            ),
            tracks_ok(&self.nfa, final(state)@.tracks),
    {
        if !self.nfa.has_relevant(event_type) {
            return;
        }
        let ghost ev = EventView {
            event_type: event_type@,
            ts: event_ts,
            row: row as int,
            cache: *pred_cache,
        };
        let ghost m0 = state@;
        let mut track_idx: usize = 0;
        while track_idx < state.tracks.len()
            invariant
                track_idx <= state@.tracks.len(),
                self.wf(),
                tracks_ok(&self.nfa, state@.tracks),
                pred_cache.covers(self.nfa.predicate_count(), rows as int),
                row < rows,
                ev == (EventView {
                    event_type: event_type@,
                    ts: event_ts,
                    row: row as int,
                    cache: *pred_cache,
                }),
                swept(self.setup(), m0, 0, ev, *binding_cache) == swept(
                    self.setup(),
                    state@,
                    track_idx as int,
                    ev,
                    *binding_cache,
                ),
            decreases state@.tracks.len() - track_idx,
        {
            let ghost before = state@;
            proof {
                lemma_visited_len(self.setup(), before, track_idx as int, ev, *binding_cache);
            }
            if self.visit_track(
                state,
                track_idx,
                event_type,
                event_ts,
                row,
                pred_cache,
                binding_cache,
                Ghost(ev),
                Ghost(rows as int),
            ) {
                track_idx = track_idx + 1;
            } else {
                let ghost m1 = state@;
                let _ = remove_track(&mut state.tracks, track_idx);
                state.active_candidate_count = state.active_candidate_count.saturating_sub(1);
                assert(state@.tracks =~= m1.tracks.remove(track_idx as int));
            }
        }
        self.check_step0(
            state,
            event_type,
            event_ts,
            row,
            pred_cache,
            binding_cache,
            Ghost(ev),
            Ghost(rows as int),
        );
    }

    /// Applies the events of one sub-batch. An event without a type is skipped.
    /// When only the first match is wanted, nothing happens after it.
    pub fn process_rows(
        &self,
        state: &mut StepCounterState,
        event_types: &Vec<Option<String>>,
        timestamps: &Vec<i64>,
        pred_cache: &PredicateCache,
        binding_cache: &BindingValueCache,
    )
        requires
            self.wf(),
            tracks_ok(&self.nfa, old(state)@.tracks),
            event_types@.len() == timestamps@.len(),
            pred_cache.covers(self.nfa.predicate_count(), timestamps@.len() as int),
        ensures
            final(state)@ == after_step_rows(
                self.setup(),
                old(state)@,
                event_texts(event_types@),
                timestamps@,
                *pred_cache,
                *binding_cache,
                0,
            ),
            tracks_ok(&self.nfa, final(state)@.tracks),
    {
        let ghost m0 = state@;
        let ghost types = event_texts(event_types@);
        let mut row: usize = 0;
        while row < timestamps.len()
            invariant
                row <= timestamps@.len(),
                self.wf(),
                m0 == old(state)@,
                types == event_texts(event_types@),
                tracks_ok(&self.nfa, state@.tracks),
                event_types@.len() == timestamps@.len(),
                pred_cache.covers(self.nfa.predicate_count(), timestamps@.len() as int),
                after_step_rows(
                    self.setup(),
                    m0,
                    types,
                    timestamps@,
                    *pred_cache,
                    *binding_cache,
                    0,
                ) == after_step_rows(
                    self.setup(),
                    state@,
                    types,
                    timestamps@,
                    *pred_cache,
                    *binding_cache,
                    row as int,
                ),
            decreases timestamps@.len() - row,
        {
            if !self.match_all && state.completions.len() > 0 {
                return;
            }
            match &event_types[row] {
                Some(event_type) => {
                    self.process_event(
                        state,
                        event_type.as_str(),
                        timestamps[row],
                        row,
                        timestamps.len(),
                        pred_cache,
                        binding_cache,
                    );
                },
                None => {},
            }
            row = row + 1;
        }
    }

    /// Applies the events of one sub-batch of a single entity, sorted by time.
    /// A batch without usable type and time columns is ignored.
    pub fn process_batch(
        &self,
        state: &mut StepCounterState,
        batch: &Batch,
        event_type_col: &str,
        timestamp_col: &str,
        pred_cache: &PredicateCache,
        binding_cache: &BindingValueCache,
    )
        requires
            self.wf(),
            tracks_ok(&self.nfa, old(state)@.tracks),
            pred_cache.covers(self.nfa.predicate_count(), batch_view(*batch).rows as int),
        ensures
            final(state)@ == (match event_columns(
                batch_view(*batch),
                event_type_col@,
                timestamp_col@,
            ) {
                Some((types, stamps)) => after_step_rows(
                    self.setup(),
                    old(state)@,
                    types,
                    stamps,
                    *pred_cache,
                    *binding_cache,
                    0,
                ),
                None => old(state)@,
            }),
            tracks_ok(&self.nfa, final(state)@.tracks),
    {
        match resolve_event_columns(batch, event_type_col, timestamp_col) {
            Some((types, stamps)) => self.process_rows(
                state,
                &types,
                &stamps,
                pred_cache,
                binding_cache,
            ),
            None => {},
        }
    }

    /// Ends an entity. Where unfinished matches are reported, every track still
    /// in progress becomes a partial match.
    pub fn finish_entity(&self, state: &mut StepCounterState)
        ensures
            final(state)@ == finished_steps(&self.nfa, old(state)@),
    {
        let ghost m0 = state@;
        if !self.nfa.emit_all {
            return;
        }
        let mut i: usize = 0;
        assert(state@.partials =~= m0.partials + open_tracks(m0.tracks, 0));
        while i < state.tracks.len()
            invariant
                i <= m0.tracks.len(),
                state@ == (StepModel { partials: state@.partials, ..m0 }),
                state@.partials == m0.partials + open_tracks(m0.tracks, i as int),
            decreases m0.tracks.len() - i,
        {
            let track: &StepCounterTrack = &track_slice(&state.tracks)[i];
            assert(m0.tracks[i as int] == track@);
            if track.current_step > 0 && !track.done {
                let ghost before = state@.partials;
                state.partials.push(
                    PartialMatch {
                        anchor_ts: track.anchor_ts,
                        step_reached: track.max_step_reached,
                        bindings: Vec::new(),
                    },
                );
                proof {
                    assert(binding_views(state.partials@.last().bindings@) =~= Seq::empty());
                    assert(state@.partials =~= before.push(state.partials@.last()@));
                }
            }
            assert(state@.partials =~= m0.partials + open_tracks(m0.tracks, i + 1));
            i = i + 1;
        }
    }
}

} // verus!
