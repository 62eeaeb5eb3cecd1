//! What the step counter promises of every linear pattern and every history of
//! events.

use vstd::prelude::*;

use super::bindings::{BindingValueCache, BindingView};
use super::nfa::{CandidateEntry, CompletionView, EventView, expired, farther, poisoned};
use super::nfa_laws::{as_candidate, complete, disjoint, lemma_advance_live, lemma_live_grows,
    lemma_live_witnessed, lemma_start_live, lemma_witness_grows, live};
use super::pattern::{CompiledNfa, may_enter};
use super::step_counter::{Step0View, StepModel, StepSetup, TrackView, advance_agrees,
    after_step_event, completed, entered, fresh_steps, fresh_track, lemma_step0_after,
    lemma_step0_unexpired, lemma_visited_len, linear_wf, next_anchor, one_less, one_more_u32,
    rebind_anchor, rebound, started_track, step0_after, step0_unexpired, swept, takes, track_with,
    tracks_ok, visited};

verus! {

/// An event together with the values that its row binds.
pub struct StepInput {
    pub event: EventView,
    pub bindings: BindingValueCache,
}

/// The events of a history.
pub open spec fn events_of(history: Seq<StepInput>) -> Seq<EventView> {
    Seq::new(history.len(), |i: int| history[i].event)
}

/// The state after a history of events.
pub open spec fn after_steps(setup: StepSetup, m: StepModel, history: Seq<StepInput>) -> StepModel
    decreases history.len(),
{
    if history.len() == 0 {
        m
    } else {
        after_step_event(
            setup,
            after_steps(setup, m, history.drop_last()),
            history.last().event,
            history.last().bindings,
        )
    }
}

/// Whether an event is a first step at a point in time where a match may begin.
pub open spec fn opens(setup: StepSetup, ev: EventView, anchor: i64) -> bool {
    &&& ev.ts == anchor
    &&& takes(&setup.nfa, ev, 0)
    &&& may_enter(setup.entry_range, anchor)
}

/// Whether one of the events is a first step at a point in time where a match may
/// begin.
pub open spec fn first_step(setup: StepSetup, events: Seq<EventView>, anchor: i64) -> bool {
    exists|j: int| 0 <= j < events.len() && #[trigger] opens(setup, events[j], anchor)
}

/// Whether a match begins with a first step, does not end before it begins, and lies
/// inside the window.
pub open spec fn well_timed(
    setup: StepSetup,
    events: Seq<EventView>,
    anchor: i64,
    last: i64,
    steps: int,
) -> bool {
    &&& first_step(setup, events, anchor)
    &&& anchor <= last
    &&& setup.nfa.global_window matches Some(w) ==> steps > 1 ==> last - anchor <= w
}

/// Whether a track in progress began with a first step.
pub open spec fn track_timed(setup: StepSetup, events: Seq<EventView>, t: TrackView) -> bool {
    t.current_step > 0 ==> first_step(setup, events, t.anchor_ts) && t.anchor_ts <= t.last_step_ts
}

/// Whether everything that the step counter knows has its place in time.
pub open spec fn timed(setup: StepSetup, events: Seq<EventView>, m: StepModel) -> bool {
    &&& forall|i: int|
        0 <= i < m.step0.len() ==> first_step(setup, events, (#[trigger] m.step0[i]).anchor_ts)
    &&& forall|i: int| 0 <= i < m.tracks.len() ==> track_timed(setup, events, #[trigger] m.tracks[i])
    &&& all_well_timed(setup, events, m.completions)
}

/// Whether every match has its place in time.
pub open spec fn all_well_timed(
    setup: StepSetup,
    events: Seq<EventView>,
    matches_found: Seq<CompletionView>,
) -> bool {
    forall|i: int|
        0 <= i < matches_found.len() ==> well_timed(
            setup,
            events,
            (#[trigger] matches_found[i]).anchor_ts,
            matches_found[i].final_ts,
            setup.nfa.accept_state as int,
        )
}

proof fn lemma_rebind_found(
    d: Seq<Step0View>,
    i: int,
    event_ts: i64,
    window: i64,
    last_step_ts: i64,
    scan_from: i64,
    key: Seq<BindingView>,
)
    requires
        0 <= i,
    ensures
        rebind_anchor(d, i, event_ts, window, last_step_ts, scan_from, key) matches Some(a) ==> {
            &&& a <= last_step_ts
            &&& a > scan_from
            &&& !expired(event_ts, a, window)
            &&& exists|k: int| 0 <= k < d.len() && (#[trigger] d[k]).anchor_ts == a
        },
    decreases d.len() - i,
{
    if i < d.len() {
        let _ = d[i];
        lemma_rebind_found(d, i + 1, event_ts, window, last_step_ts, scan_from, key);
    }
}

pub proof fn lemma_next_found(d: Seq<Step0View>, i: int, scan_from: i64, key: Seq<BindingView>)
    requires
        0 <= i,
    ensures
        next_anchor(d, i, scan_from, key) matches Some(a) ==> a > scan_from && exists|k: int|
            0 <= k < d.len() && (#[trigger] d[k]).anchor_ts == a,
    decreases d.len() - i,
{
    if i < d.len() {
        let _ = d[i];
        lemma_next_found(d, i + 1, scan_from, key);
    }
}

proof fn lemma_first_step_grows(setup: StepSetup, events: Seq<EventView>, ev: EventView, anchor: i64)
    requires
        first_step(setup, events, anchor),
    ensures
        first_step(setup, events.push(ev), anchor),
{
    let j = choose|j: int| 0 <= j < events.len() && #[trigger] opens(setup, events[j], anchor);
    assert(opens(setup, events.push(ev)[j], anchor));
}

proof fn lemma_timed_grows(setup: StepSetup, events: Seq<EventView>, ev: EventView, m: StepModel)
    requires
        timed(setup, events, m),
    ensures
        timed(setup, events.push(ev), m),
{
    let all = events.push(ev);
    assert forall|i: int| 0 <= i < m.step0.len() implies first_step(
        setup,
        all,
        (#[trigger] m.step0[i]).anchor_ts,
    ) by {
        lemma_first_step_grows(setup, events, ev, m.step0[i].anchor_ts);
    }
    assert forall|i: int| 0 <= i < m.tracks.len() implies track_timed(
        setup,
        all,
        #[trigger] m.tracks[i],
    ) by {
        assert(track_timed(setup, events, m.tracks[i]));
        if m.tracks[i].current_step > 0 {
            lemma_first_step_grows(setup, events, ev, m.tracks[i].anchor_ts);
        }
    }
    assert forall|i: int| 0 <= i < m.completions.len() implies well_timed(
        setup,
        all,
        (#[trigger] m.completions[i]).anchor_ts,
        m.completions[i].final_ts,
        setup.nfa.accept_state as int,
    ) by {
        lemma_first_step_grows(setup, events, ev, m.completions[i].anchor_ts);
    }
}

/// Dropping first-step events keeps the rest in place.
proof fn lemma_timed_dropped(
    setup: StepSetup,
    events: Seq<EventView>,
    m: StepModel,
    left: Seq<Step0View>,
)
    requires
        timed(setup, events, m),
        forall|i: int| 0 <= i < left.len() ==> m.step0.contains(#[trigger] left[i]),
    ensures
        timed(setup, events, StepModel { step0: left, ..m }),
{
    assert forall|i: int| 0 <= i < left.len() implies first_step(
        setup,
        events,
        (#[trigger] left[i]).anchor_ts,
    ) by {
        assert(m.step0.contains(left[i]));
    }
}

/// Replacing a track by one with its place in time.
proof fn lemma_timed_track(
    setup: StepSetup,
    events: Seq<EventView>,
    m: StepModel,
    i: int,
    t: TrackView,
)
    requires
        timed(setup, events, m),
        0 <= i < m.tracks.len(),
        track_timed(setup, events, t),
    ensures
        timed(setup, events, StepModel { tracks: m.tracks.update(i, t), ..m }),
{
    let tracks = m.tracks.update(i, t);
    assert forall|k: int| 0 <= k < tracks.len() implies track_timed(
        setup,
        events,
        #[trigger] tracks[k],
    ) by {
        if k != i {
            assert(tracks[k] == m.tracks[k]);
        }
    }
}

proof fn lemma_timed_completed(
    setup: StepSetup,
    events: Seq<EventView>,
    m: StepModel,
    i: int,
    event_ts: i64,
)
    requires
        timed(setup, events, m),
        0 <= i < m.tracks.len(),
        well_timed(setup, events, m.tracks[i].anchor_ts, event_ts, setup.nfa.accept_state as int),
    ensures
        timed(setup, events, completed(setup.match_all, m, i, event_ts)),
{
    let t = m.tracks[i];
    assert(track_timed(setup, events, t));
    let r = completed(setup.match_all, m, i, event_ts);
    let m1 = StepModel { completions: r.completions, ..m };
    assert forall|k: int| 0 <= k < m1.completions.len() implies well_timed(
        setup,
        events,
        (#[trigger] m1.completions[k]).anchor_ts,
        m1.completions[k].final_ts,
        setup.nfa.accept_state as int,
    ) by {
        if k < m.completions.len() {
            assert(m1.completions[k] == m.completions[k]);
        }
    }
    assert(timed(setup, events, m1));
    if setup.match_all {
        let left = step0_after(m.step0, event_ts);
        lemma_step0_after(m.step0, event_ts);
        lemma_timed_dropped(setup, events, m1, left);
        let m2 = StepModel { step0: left, ..m1 };
        lemma_next_found(m2.step0, 0, event_ts, t.bindings);
        if let Some(a) = next_anchor(m2.step0, 0, event_ts, t.bindings) {
            let k = choose|k: int| 0 <= k < m2.step0.len() && (#[trigger] m2.step0[k]).anchor_ts == a;
            assert(first_step(setup, events, m2.step0[k].anchor_ts));
        }
        lemma_timed_track(setup, events, m2, i, r.tracks[i]);
        assert(r.tracks =~= m.tracks.update(i, r.tracks[i]));
    } else {
        lemma_timed_track(setup, events, m1, i, r.tracks[i]);
        assert(r.tracks =~= m.tracks.update(i, r.tracks[i]));
    }
}

proof fn lemma_timed_rebound(
    setup: StepSetup,
    events: Seq<EventView>,
    m: StepModel,
    i: int,
    event_ts: i64,
)
    requires
        timed(setup, events, m),
        0 <= i < m.tracks.len(),
        m.tracks[i].current_step > 0,
    ensures
        timed(setup, events, rebound(&setup.nfa, m, i, event_ts).0),
        rebound(&setup.nfa, m, i, event_ts).0.tracks.len() == m.tracks.len(),
        rebound(&setup.nfa, m, i, event_ts).1 ==> {
            let t = rebound(&setup.nfa, m, i, event_ts).0.tracks[i];
            &&& t == (TrackView { anchor_ts: t.anchor_ts, ..m.tracks[i] })
            &&& setup.nfa.global_window matches Some(w) ==> !expired(event_ts, t.anchor_ts, w)
            &&& setup.nfa.global_window is None ==> t == m.tracks[i]
        },
{
    let t = m.tracks[i];
    assert(track_timed(setup, events, t));
    if let Some(w) = setup.nfa.global_window {
        if expired(event_ts, t.anchor_ts, w) {
            let left = step0_unexpired(m.step0, event_ts, w);
            lemma_step0_unexpired(m.step0, event_ts, w);
            lemma_timed_dropped(setup, events, m, left);
            let m1 = StepModel { step0: left, ..m };
            lemma_rebind_found(m1.step0, 0, event_ts, w, t.last_step_ts, t.scan_from, t.bindings);
            if let Some(a) = rebind_anchor(
                m1.step0,
                0,
                event_ts,
                w,
                t.last_step_ts,
                t.scan_from,
                t.bindings,
            ) {
                let k = choose|k: int|
                    0 <= k < m1.step0.len() && (#[trigger] m1.step0[k]).anchor_ts == a;
                assert(first_step(setup, events, m1.step0[k].anchor_ts));
                lemma_timed_track(setup, events, m1, i, TrackView { anchor_ts: a, ..t });
            }
        }
    }
}

proof fn lemma_timed_visited(
    setup: StepSetup,
    events: Seq<EventView>,
    m: StepModel,
    i: int,
    ev: EventView,
    bindings: BindingValueCache,
)
    requires
        timed(setup, events, m),
        0 <= i < m.tracks.len(),
        tracks_ok(&setup.nfa, m.tracks),
        setup.nfa.states@[setup.nfa.accept_state as int].transitions@.len() == 0,
        setup.nfa.accept_state <= 255,
    ensures
        timed(setup, events, visited(setup, m, i, ev, bindings).0),
{
    let nfa = &setup.nfa;
    let t = m.tracks[i];
    if !t.done && t.current_step > 0 {
        let s = t.current_step as int;
        lemma_timed_rebound(setup, events, m, i, ev.ts);
        let (m1, valid) = rebound(nfa, m, i, ev.ts);
        if valid && !poisoned(nfa, ev, s) && takes(nfa, ev, s) && ev.ts > t.last_step_ts {
            let t1 = m1.tracks[i];
            assert(track_timed(setup, events, t1));
            let step = (t1.current_step + 1) as u8;
            let t2 = TrackView {
                current_step: step,
                last_step_ts: ev.ts,
                max_step_reached: farther(t1.max_step_reached, step),
                ..t1
            };
            lemma_timed_track(setup, events, m1, i, t2);
            let m2 = StepModel { tracks: m1.tracks.update(i, t2), ..m1 };
            if step == nfa.accept_state {
                lemma_timed_completed(setup, events, m2, i, ev.ts);
            }
        }
    }
}

/// Whether a pattern is a chain: from each state but the last one the first transition
/// leads to the next state.
pub open spec fn is_chain(nfa: &CompiledNfa) -> bool {
    &&& nfa.wf()
    &&& 1 <= nfa.accept_state <= 255
    &&& nfa.states@[nfa.accept_state as int].transitions@.len() == 0
    &&& forall|s: int|
        0 <= s < nfa.accept_state ==> (#[trigger] nfa.states@[s]).transitions@.len() > 0
            && nfa.states@[s].transitions@[0].target == s + 1
}

proof fn lemma_ok_completed(setup: StepSetup, m: StepModel, i: int, event_ts: i64)
    requires
        setup.nfa.accept_state >= 1,
        tracks_ok(&setup.nfa, m.tracks),
        0 <= i < m.tracks.len(),
    ensures
        tracks_ok(&setup.nfa, completed(setup.match_all, m, i, event_ts).tracks),
        completed(setup.match_all, m, i, event_ts).tracks.len() == m.tracks.len(),
{
    let r = completed(setup.match_all, m, i, event_ts);
    assert forall|k: int| 0 <= k < r.tracks.len() implies (#[trigger] r.tracks[k]).current_step
        <= setup.nfa.accept_state by {
        let _ = m.tracks[k];
        let _ = m.tracks[i];
    }
}

/// No event takes a track past the last step.
proof fn lemma_ok_visited(
    setup: StepSetup,
    m: StepModel,
    i: int,
    ev: EventView,
    bindings: BindingValueCache,
)
    requires
        is_chain(&setup.nfa),
        tracks_ok(&setup.nfa, m.tracks),
        0 <= i < m.tracks.len(),
    ensures
        tracks_ok(&setup.nfa, visited(setup, m, i, ev, bindings).0.tracks),
{
    let nfa = &setup.nfa;
    let t = m.tracks[i];
    if !t.done && t.current_step > 0 {
        let s = t.current_step as int;
        let (m1, valid) = rebound(nfa, m, i, ev.ts);
        assert(m1.tracks.len() == m.tracks.len());
        assert forall|k: int| 0 <= k < m1.tracks.len() implies (#[trigger] m1.tracks[k]).current_step
            <= nfa.accept_state by {
            let _ = m.tracks[k];
        }
        if valid && !poisoned(nfa, ev, s) && takes(nfa, ev, s) {
            assert(s < nfa.accept_state);
            let t1 = m1.tracks[i];
            let step = (t1.current_step + 1) as u8;
            let m2 = StepModel {
                tracks: m1.tracks.update(
                    i,
                    TrackView {
                        current_step: step,
                        last_step_ts: ev.ts,
                        max_step_reached: farther(t1.max_step_reached, step),
                        ..t1
                    },
                ),
                ..m1
            };
            assert(tracks_ok(nfa, m2.tracks));
            if step == nfa.accept_state {
                lemma_ok_completed(setup, m2, i, ev.ts);
            }
        }
    }
}

proof fn lemma_timed_swept(
    setup: StepSetup,
    events: Seq<EventView>,
    m: StepModel,
    i: int,
    ev: EventView,
    bindings: BindingValueCache,
)
    requires
        is_chain(&setup.nfa),
        timed(setup, events, m),
        tracks_ok(&setup.nfa, m.tracks),
        0 <= i,
    ensures
        timed(setup, events, swept(setup, m, i, ev, bindings)),
        tracks_ok(&setup.nfa, swept(setup, m, i, ev, bindings).tracks),
    decreases m.tracks.len() - i,
{
    if i < m.tracks.len() {
        lemma_visited_len(setup, m, i, ev, bindings);
        lemma_timed_visited(setup, events, m, i, ev, bindings);
        lemma_ok_visited(setup, m, i, ev, bindings);
        let (m1, stays) = visited(setup, m, i, ev, bindings);
        if stays {
            lemma_timed_swept(setup, events, m1, i + 1, ev, bindings);
        } else {
            let m2 = StepModel { tracks: m1.tracks.remove(i), active: one_less(m1.active), ..m1 };
            assert forall|k: int| 0 <= k < m2.tracks.len() implies track_timed(
                setup,
                events,
                #[trigger] m2.tracks[k],
            ) && m2.tracks[k].current_step <= setup.nfa.accept_state by {
                if k < i {
                    assert(m2.tracks[k] == m1.tracks[k]);
                } else {
                    assert(m2.tracks[k] == m1.tracks[k + 1]);
                }
            }
            lemma_timed_swept(setup, events, m2, i, ev, bindings);
        }
    }
}

pub proof fn lemma_track_with(tracks: Seq<TrackView>, key: Seq<BindingView>, i: int)
    requires
        0 <= i,
    ensures
        match track_with(tracks, key, i) {
            Some(k) => i <= k < tracks.len() && tracks[k].bindings == key,
            None => forall|k: int| i <= k < tracks.len() ==> (#[trigger] tracks[k]).bindings != key,
        },
    decreases tracks.len() - i,
{
    if i < tracks.len() && tracks[i].bindings != key {
        lemma_track_with(tracks, key, i + 1);
    }
}

proof fn lemma_timed_entered(
    setup: StepSetup,
    events: Seq<EventView>,
    m: StepModel,
    event_ts: i64,
    key: Seq<BindingView>,
)
    requires
        is_chain(&setup.nfa),
        timed(setup, events, m),
        tracks_ok(&setup.nfa, m.tracks),
        first_step(setup, events, event_ts),
    ensures
        timed(setup, events, entered(setup, m, event_ts, key)),
        tracks_ok(&setup.nfa, entered(setup, m, event_ts, key).tracks),
{
    let found = track_with(m.tracks, key, 0);
    lemma_track_with(m.tracks, key, 0);
    let kept = StepModel {
        step0: if m.step0.len() < setup.limit {
            m.step0.push(Step0View { anchor_ts: event_ts, key })
        } else {
            m.step0
        },
        ..m
    };
    assert(timed(setup, events, kept));
    match found {
        Some(i) => {
            let t = started_track(m.tracks[i], event_ts);
            lemma_timed_track(setup, events, kept, i, t);
            let m1 = StepModel {
                tracks: m.tracks.update(i, t),
                active: super::step_counter::one_more_u32(m.active),
                ..kept
            };
            assert(timed(setup, events, m1));
            assert(tracks_ok(&setup.nfa, m1.tracks));
            if setup.nfa.accept_state == 1 {
                lemma_timed_completed(setup, events, m1, i, event_ts);
                lemma_ok_completed(setup, m1, i, event_ts);
            }
        },
        None => {
            let t = started_track(fresh_track(key), event_ts);
            let m1 = StepModel {
                tracks: m.tracks.push(t),
                active: super::step_counter::one_more_u32(m.active),
                ..kept
            };
            let i = m.tracks.len() as int;
            assert forall|k: int| 0 <= k < m1.tracks.len() implies track_timed(
                setup,
                events,
                #[trigger] m1.tracks[k],
            ) && m1.tracks[k].current_step <= setup.nfa.accept_state by {
                if k < i {
                    assert(m1.tracks[k] == m.tracks[k]);
                }
            }
            assert(timed(setup, events, m1));
            if setup.nfa.accept_state == 1 {
                lemma_timed_completed(setup, events, m1, i, event_ts);
                lemma_ok_completed(setup, m1, i, event_ts);
            }
        },
    }
}

proof fn lemma_timed_step(
    setup: StepSetup,
    events: Seq<EventView>,
    m: StepModel,
    ev: EventView,
    bindings: BindingValueCache,
)
    requires
        is_chain(&setup.nfa),
        timed(setup, events, m),
        tracks_ok(&setup.nfa, m.tracks),
    ensures
        timed(setup, events.push(ev), after_step_event(setup, m, ev, bindings)),
        tracks_ok(&setup.nfa, after_step_event(setup, m, ev, bindings).tracks),
{
    let all = events.push(ev);
    lemma_timed_grows(setup, events, ev, m);
    if setup.nfa.is_relevant(ev.event_type) {
        lemma_timed_swept(setup, all, m, 0, ev, bindings);
        let m1 = swept(setup, m, 0, ev, bindings);
        if takes(&setup.nfa, ev, 0) && may_enter(setup.entry_range, ev.ts) {
            assert(opens(setup, all[events.len() as int], ev.ts));
            if let Some(key) = super::step_counter::step0_key(&setup.nfa, bindings, ev.row) {
                lemma_timed_entered(setup, all, m1, ev.ts, key);
            }
        }
    }
}

pub proof fn lemma_timed(setup: StepSetup, history: Seq<StepInput>)
    requires
        is_chain(&setup.nfa),
    ensures
        timed(setup, events_of(history), after_steps(setup, fresh_steps(), history)),
        tracks_ok(&setup.nfa, after_steps(setup, fresh_steps(), history).tracks),
    decreases history.len(),
{
    if history.len() > 0 {
        let before = history.drop_last();
        lemma_timed(setup, before);
        lemma_timed_step(
            setup,
            events_of(before),
            after_steps(setup, fresh_steps(), before),
            history.last().event,
            history.last().bindings,
        );
        assert(events_of(before).push(history.last().event) =~= events_of(history));
    }
}

/// Every match of the step counter begins with a first-step event inside the entry
/// range, does not end before it begins, and lies inside the window.
pub proof fn theorem_steps_well_timed(setup: StepSetup, history: Seq<StepInput>)
    requires
        is_chain(&setup.nfa),
    ensures
        all_well_timed(
            setup,
            events_of(history),
            after_steps(setup, fresh_steps(), history).completions,
        ),
{
    lemma_timed(setup, history);
}

/// Where a track stands.
pub open spec fn position(t: TrackView) -> CandidateEntry {
    CandidateEntry { anchor_ts: t.anchor_ts, last_step_ts: t.last_step_ts }
}

/// Whether events make up the progress of a track, and nothing has killed it since.
spec fn track_live(setup: StepSetup, events: Seq<EventView>, t: TrackView) -> bool {
    t.current_step > 0 && !t.done ==> {
        &&& t.current_step < setup.nfa.accept_state
        &&& live(&setup.nfa, setup.entry_range, events, t.current_step as int, position(t))
    }
}

/// Whether events make up every match.
pub open spec fn all_complete(
    setup: StepSetup,
    events: Seq<EventView>,
    matches_found: Seq<CompletionView>,
) -> bool {
    forall|i: int|
        0 <= i < matches_found.len() ==> complete(
            &setup.nfa,
            setup.entry_range,
            events,
            #[trigger] matches_found[i],
        )
}

/// What holds while the tracks from `i` on have yet to see an event: they are made up
/// by the events before, all others by the events up to and with it.
spec fn walked(setup: StepSetup, events: Seq<EventView>, ev: EventView, m: StepModel, i: int) -> bool {
    &&& forall|k: int|
        0 <= k < m.tracks.len() ==> track_live(
            setup,
            if k < i {
                events.push(ev)
            } else {
                events
            },
            #[trigger] m.tracks[k],
        )
    &&& all_complete(setup, events.push(ev), m.completions)
    &&& forall|k: int| 0 <= k < m.step0.len() ==> (#[trigger] m.step0[k]).anchor_ts <= ev.ts
}

proof fn lemma_walked_completed(
    setup: StepSetup,
    events: Seq<EventView>,
    ev: EventView,
    m: StepModel,
    i: int,
    upto: int,
)
    requires
        0 <= i < upto <= m.tracks.len(),
        forall|k: int|
            0 <= k < m.tracks.len() && k != i ==> track_live(
                setup,
                if k < upto {
                    events.push(ev)
                } else {
                    events
                },
                #[trigger] m.tracks[k],
            ),
        all_complete(setup, events.push(ev), m.completions),
        forall|k: int| 0 <= k < m.step0.len() ==> (#[trigger] m.step0[k]).anchor_ts <= ev.ts,
        live(
            &setup.nfa,
            setup.entry_range,
            events.push(ev),
            setup.nfa.accept_state as int,
            CandidateEntry { anchor_ts: m.tracks[i].anchor_ts, last_step_ts: ev.ts },
        ),
    ensures
        walked(setup, events, ev, completed(setup.match_all, m, i, ev.ts), upto),
{
    let r = completed(setup.match_all, m, i, ev.ts);
    let t = m.tracks[i];
    let all = events.push(ev);
    let view = CompletionView { anchor_ts: t.anchor_ts, final_ts: ev.ts, bindings: Seq::empty() };
    lemma_live_witnessed(
        &setup.nfa,
        setup.entry_range,
        all,
        setup.nfa.accept_state as int,
        as_candidate(view),
    );
    assert forall|k: int| 0 <= k < r.completions.len() implies complete(
        &setup.nfa,
        setup.entry_range,
        all,
        #[trigger] r.completions[k],
    ) by {
        if k < m.completions.len() {
            assert(r.completions[k] == m.completions[k]);
        }
    }
    let rest = step0_after(m.step0, ev.ts);
    lemma_step0_after(m.step0, ev.ts);
    assert forall|k: int| 0 <= k < rest.len() implies (#[trigger] rest[k]).anchor_ts <= ev.ts by {
        assert(m.step0.contains(rest[k]));
    }
    lemma_next_found(rest, 0, ev.ts, t.bindings);
    assert(next_anchor(rest, 0, ev.ts, t.bindings) is None);
    assert forall|k: int| 0 <= k < r.tracks.len() implies track_live(
        setup,
        if k < upto {
            all
        } else {
            events
        },
        #[trigger] r.tracks[k],
    ) by {
        if k != i {
            assert(r.tracks[k] == m.tracks[k]);
        }
    }
}

proof fn lemma_walked_visited(
    setup: StepSetup,
    events: Seq<EventView>,
    ev: EventView,
    m: StepModel,
    i: int,
    bindings: BindingValueCache,
)
    requires
        is_chain(&setup.nfa),
        setup.nfa.global_window is None,
        setup.nfa.is_relevant(ev.event_type),
        walked(setup, events, ev, m, i),
        0 <= i < m.tracks.len(),
    ensures
        visited(setup, m, i, ev, bindings).1 ==> walked(
            setup,
            events,
            ev,
            visited(setup, m, i, ev, bindings).0,
            i + 1,
        ),
        !visited(setup, m, i, ev, bindings).1 ==> {
            let r = visited(setup, m, i, ev, bindings).0;
            &&& r.tracks == m.tracks
            &&& r.completions == m.completions
            &&& r.step0 == m.step0
        },
{
    let nfa = &setup.nfa;
    let all = events.push(ev);
    let t = m.tracks[i];
    let s = t.current_step as int;
    assert(track_live(setup, events, t));
    assert forall|k: int| 0 <= k < m.tracks.len() && k != i implies track_live(
        setup,
        if k < i + 1 {
            all
        } else {
            events
        },
        #[trigger] m.tracks[k],
    ) by {}
    if !t.done && t.current_step > 0 && !poisoned(nfa, ev, s) {
        if takes(nfa, ev, s) && ev.ts > t.last_step_ts && super::step_counter::advance_agrees(
            nfa.states@[s].transitions@[0],
            t.bindings,
            bindings,
            ev.row,
        ) {
            let _ = nfa.states@[s];
            lemma_advance_live(nfa, setup.entry_range, events, ev, s, 0, position(t));
            let step = (t.current_step + 1) as u8;
            let t1 = TrackView {
                current_step: step,
                last_step_ts: ev.ts,
                max_step_reached: farther(t.max_step_reached, step),
                ..t
            };
            let m1 = StepModel { tracks: m.tracks.update(i, t1), ..m };
            assert forall|k: int| 0 <= k < m1.tracks.len() && k != i implies track_live(
                setup,
                if k < i + 1 {
                    all
                } else {
                    events
                },
                #[trigger] m1.tracks[k],
            ) by {
                assert(m1.tracks[k] == m.tracks[k]);
            }
            if step == nfa.accept_state {
                lemma_walked_completed(setup, events, ev, m1, i, i + 1);
            } else {
                assert(track_live(setup, all, t1));
            }
        } else {
            lemma_live_grows(nfa, setup.entry_range, events, ev, s, position(t));
        }
    }
}

proof fn lemma_walked_swept(
    setup: StepSetup,
    events: Seq<EventView>,
    ev: EventView,
    m: StepModel,
    i: int,
    bindings: BindingValueCache,
)
    requires
        is_chain(&setup.nfa),
        setup.nfa.global_window is None,
        setup.nfa.is_relevant(ev.event_type),
        walked(setup, events, ev, m, i),
        0 <= i <= m.tracks.len(),
    ensures
        walked(
            setup,
            events,
            ev,
            swept(setup, m, i, ev, bindings),
            swept(setup, m, i, ev, bindings).tracks.len() as int,
        ),
    decreases m.tracks.len() - i,
{
    if i < m.tracks.len() {
        lemma_visited_len(setup, m, i, ev, bindings);
        lemma_walked_visited(setup, events, ev, m, i, bindings);
        let (m1, stays) = visited(setup, m, i, ev, bindings);
        if stays {
            lemma_walked_swept(setup, events, ev, m1, i + 1, bindings);
        } else {
            let m2 = StepModel { tracks: m1.tracks.remove(i), active: one_less(m1.active), ..m1 };
            assert forall|k: int| 0 <= k < m2.tracks.len() implies track_live(
                setup,
                if k < i {
                    events.push(ev)
                } else {
                    events
                },
                #[trigger] m2.tracks[k],
            ) by {
                if k < i {
                    assert(m2.tracks[k] == m.tracks[k]);
                } else {
                    assert(m2.tracks[k] == m.tracks[k + 1]);
                }
            }
            lemma_walked_swept(setup, events, ev, m2, i, bindings);
        }
    }
}

proof fn lemma_walked_entered(
    setup: StepSetup,
    events: Seq<EventView>,
    ev: EventView,
    m: StepModel,
    key: Seq<BindingView>,
)
    requires
        is_chain(&setup.nfa),
        walked(setup, events, ev, m, m.tracks.len() as int),
        takes(&setup.nfa, ev, 0),
        may_enter(setup.entry_range, ev.ts),
    ensures
        walked(
            setup,
            events,
            ev,
            entered(setup, m, ev.ts, key),
            entered(setup, m, ev.ts, key).tracks.len() as int,
        ),
{
    let nfa = &setup.nfa;
    let all = events.push(ev);
    let n = m.tracks.len() as int;
    lemma_track_with(m.tracks, key, 0);
    let _ = nfa.states@[0];
    lemma_start_live(nfa, setup.entry_range, events, ev, 0);
    let kept = StepModel {
        step0: if m.step0.len() < setup.limit {
            m.step0.push(Step0View { anchor_ts: ev.ts, key })
        } else {
            m.step0
        },
        ..m
    };
    assert(walked(setup, events, ev, kept, n));
    match track_with(m.tracks, key, 0) {
        Some(i) => {
            let t = started_track(m.tracks[i], ev.ts);
            let m1 = StepModel {
                tracks: m.tracks.update(i, t),
                active: super::step_counter::one_more_u32(m.active),
                ..kept
            };
            assert forall|k: int| 0 <= k < n && k != i implies track_live(
                setup,
                if k < n {
                    all
                } else {
                    events
                },
                #[trigger] m1.tracks[k],
            ) by {
                assert(m1.tracks[k] == m.tracks[k]);
            }
            if nfa.accept_state == 1 {
                lemma_walked_completed(setup, events, ev, m1, i, n);
            } else {
                assert(track_live(setup, all, t));
            }
        },
        None => {
            let t = started_track(fresh_track(key), ev.ts);
            let m1 = StepModel {
                tracks: m.tracks.push(t),
                active: super::step_counter::one_more_u32(m.active),
                ..kept
            };
            assert forall|k: int| 0 <= k < n + 1 && k != n implies track_live(
                setup,
                if k < n + 1 {
                    all
                } else {
                    events
                },
                #[trigger] m1.tracks[k],
            ) by {
                assert(m1.tracks[k] == m.tracks[k]);
            }
            if nfa.accept_state == 1 {
                lemma_walked_completed(setup, events, ev, m1, n, n + 1);
            } else {
                assert(track_live(setup, all, t));
            }
        },
    }
}

/// Whether everything that the step counter knows is made up by events that lie no
/// later than a point in time.
spec fn steps_sound(setup: StepSetup, events: Seq<EventView>, m: StepModel) -> bool {
    &&& forall|k: int| 0 <= k < m.tracks.len() ==> track_live(setup, events, #[trigger] m.tracks[k])
    &&& all_complete(setup, events, m.completions)
    &&& forall|k: int|
        0 <= k < m.step0.len() ==> events.len() > 0 && (#[trigger] m.step0[k]).anchor_ts
            <= events.last().ts
}

proof fn lemma_steps_sound_step(
    setup: StepSetup,
    events: Seq<EventView>,
    m: StepModel,
    ev: EventView,
    bindings: BindingValueCache,
)
    requires
        is_chain(&setup.nfa),
        setup.nfa.global_window is None,
        steps_sound(setup, events, m),
        events.len() > 0 ==> events.last().ts <= ev.ts,
    ensures
        steps_sound(setup, events.push(ev), after_step_event(setup, m, ev, bindings)),
{
    let nfa = &setup.nfa;
    let all = events.push(ev);
    assert forall|i: int| 0 <= i < m.completions.len() implies complete(
        nfa,
        setup.entry_range,
        all,
        #[trigger] m.completions[i],
    ) by {
        lemma_witness_grows(
            nfa,
            setup.entry_range,
            events,
            ev,
            nfa.accept_state as int,
            as_candidate(m.completions[i]),
        );
    }
    if nfa.is_relevant(ev.event_type) {
        assert(walked(setup, events, ev, m, 0));
        lemma_walked_swept(setup, events, ev, m, 0, bindings);
        let m1 = swept(setup, m, 0, ev, bindings);
        if takes(nfa, ev, 0) && may_enter(setup.entry_range, ev.ts) {
            if let Some(key) = super::step_counter::step0_key(nfa, bindings, ev.row) {
                lemma_walked_entered(setup, events, ev, m1, key);
            }
        }
        let r = after_step_event(setup, m, ev, bindings);
        assert(walked(setup, events, ev, r, r.tracks.len() as int));
        assert forall|k: int| 0 <= k < r.tracks.len() implies track_live(
            setup,
            all,
            #[trigger] r.tracks[k],
        ) by {}
    } else {
        assert forall|k: int| 0 <= k < m.tracks.len() implies track_live(
            setup,
            all,
            #[trigger] m.tracks[k],
        ) by {
            let t = m.tracks[k];
            if t.current_step > 0 && !t.done {
                lemma_live_grows(
                    nfa,
                    setup.entry_range,
                    events,
                    ev,
                    t.current_step as int,
                    position(t),
                );
            }
        }
    }
}

/// Whether no event comes before an earlier one.
pub open spec fn in_order(events: Seq<EventView>) -> bool {
    forall|i: int, j: int|
        0 <= i < j < events.len() ==> (#[trigger] events[i]).ts <= (#[trigger] events[j]).ts
}

proof fn lemma_steps_sound(setup: StepSetup, history: Seq<StepInput>)
    requires
        is_chain(&setup.nfa),
        setup.nfa.global_window is None,
        in_order(events_of(history)),
    ensures
        steps_sound(setup, events_of(history), after_steps(setup, fresh_steps(), history)),
    decreases history.len(),
{
    if history.len() > 0 {
        let before = history.drop_last();
        let events = events_of(before);
        let all = events_of(history);
        let ev = history.last().event;
        assert(events.push(ev) =~= all);
        assert(in_order(events)) by {
            assert forall|i: int, j: int| 0 <= i < j < events.len() implies (
            #[trigger] events[i]).ts <= (#[trigger] events[j]).ts by {
                assert(events[i] == all[i] && events[j] == all[j]);
            }
        }
        if events.len() > 0 {
            assert(all[events.len() - 1].ts <= all[events.len() as int].ts);
        }
        lemma_steps_sound(setup, before);
        lemma_steps_sound_step(
            setup,
            events,
            after_steps(setup, fresh_steps(), before),
            ev,
            history.last().bindings,
        );
    }
}

/// Without a window, every match of the step counter is made up by events in order:
/// they lead through all steps of the pattern, each strictly later than the one
/// before, with no event in between that excludes it.
pub proof fn theorem_steps_sound(setup: StepSetup, history: Seq<StepInput>)
    requires
        is_chain(&setup.nfa),
        setup.nfa.global_window is None,
        in_order(events_of(history)),
    ensures
        all_complete(
            setup,
            events_of(history),
            after_steps(setup, fresh_steps(), history).completions,
        ),
{
    lemma_steps_sound(setup, history);
}

/// Whether a point in time lies after the last match.
spec fn after_matches(matches_found: Seq<CompletionView>, ts: i64) -> bool {
    matches_found.len() > 0 ==> ts > matches_found.last().final_ts
}

/// What holds between events when all matches of a pattern without variables are looked
/// for.
spec fn steps_spaced(setup: StepSetup, m: StepModel, now: i64) -> bool {
    &&& m.tracks.len() <= 1
    &&& disjoint(m.completions)
    &&& m.completions.len() > 0 ==> m.completions.last().final_ts <= now
    &&& forall|k: int|
        0 <= k < m.step0.len() ==> (#[trigger] m.step0[k]).anchor_ts <= now && after_matches(
            m.completions,
            m.step0[k].anchor_ts,
        )
    &&& m.tracks.len() == 0 ==> m.completions.len() > 0 ==> m.completions.last().final_ts < now
    &&& m.tracks.len() == 1 ==> {
        let t = m.tracks[0];
        &&& t.bindings.len() == 0
        &&& !t.done
        &&& t.current_step == 0 ==> m.completions.len() > 0 ==> m.completions.last().final_ts
            <= t.scan_from
        &&& t.current_step > 0 ==> {
            &&& after_matches(m.completions, t.anchor_ts)
            &&& t.anchor_ts <= t.last_step_ts <= now
        }
    }
}

proof fn lemma_all_consumed(d: Seq<Step0View>, ts: i64)
    requires
        forall|k: int| 0 <= k < d.len() ==> (#[trigger] d[k]).anchor_ts <= ts,
    ensures
        step0_after(d, ts).len() == 0,
{
    lemma_step0_after(d, ts);
    let left = step0_after(d, ts);
    if left.len() > 0 {
        assert(d.contains(left[0]));
    }
}

proof fn lemma_spaced_completed(setup: StepSetup, m: StepModel, ts: i64)
    requires
        setup.match_all,
        m.tracks.len() == 1,
        m.tracks[0].bindings.len() == 0,
        !m.tracks[0].done,
        disjoint(m.completions),
        after_matches(m.completions, m.tracks[0].anchor_ts),
        m.tracks[0].anchor_ts <= ts,
        forall|k: int| 0 <= k < m.step0.len() ==> (#[trigger] m.step0[k]).anchor_ts <= ts,
    ensures
        steps_spaced(setup, completed(setup.match_all, m, 0, ts), ts),
        completed(setup.match_all, m, 0, ts).tracks[0].scan_from == ts,
        completed(setup.match_all, m, 0, ts).tracks[0].current_step == 0,
        completed(setup.match_all, m, 0, ts).tracks.len() == 1,
{
    let r = completed(true, m, 0, ts);
    lemma_all_consumed(m.step0, ts);
    let rest = step0_after(m.step0, ts);
    assert(next_anchor(rest, 0, ts, m.tracks[0].bindings) is None);
    let found = r.completions;
    let n = m.completions.len() as int;
    assert forall|i: int| 0 <= i < found.len() implies (#[trigger] found[i]).anchor_ts
        <= found[i].final_ts by {
        if i < n {
            assert(found[i] == m.completions[i]);
        }
    }
    assert forall|i: int, j: int| 0 <= i < j < found.len() implies (#[trigger] found[i]).final_ts < (
    #[trigger] found[j]).anchor_ts by {
        assert(found[i] == m.completions[i]);
        if j < n {
            assert(found[j] == m.completions[j]);
        } else if i < n - 1 {
            assert(m.completions[i].final_ts < m.completions[n - 1].anchor_ts);
        }
    }
}

/// Waiting longer changes nothing.
proof fn lemma_spaced_later(setup: StepSetup, m: StepModel, now: i64, ts: i64)
    requires
        steps_spaced(setup, m, now),
        now <= ts,
    ensures
        steps_spaced(setup, m, ts),
{
    assert forall|k: int| 0 <= k < m.step0.len() implies (#[trigger] m.step0[k]).anchor_ts <= ts
        && after_matches(m.completions, m.step0[k].anchor_ts) by {}
}

/// How many tracks are counted does not matter.
proof fn lemma_spaced_same(setup: StepSetup, a: StepModel, b: StepModel, ts: i64)
    requires
        steps_spaced(setup, a, ts),
        a.tracks == b.tracks,
        a.step0 == b.step0,
        a.completions == b.completions,
    ensures
        steps_spaced(setup, b, ts),
{
}

proof fn lemma_spaced_visited(
    setup: StepSetup,
    m: StepModel,
    ev: EventView,
    bindings: BindingValueCache,
    now: i64,
)
    requires
        is_chain(&setup.nfa),
        setup.match_all,
        steps_spaced(setup, m, now),
        tracks_ok(&setup.nfa, m.tracks),
        now <= ev.ts,
        m.tracks.len() == 1,
    ensures
        ({
            let (r, stays) = visited(setup, m, 0, ev, bindings);
            if stays {
                steps_spaced(setup, r, ev.ts) && r.tracks.len() == 1
            } else {
                steps_spaced(setup, StepModel { tracks: Seq::empty(), ..r }, ev.ts)
                    && r.tracks.len() == 1
            }
        }),
{
    let nfa = &setup.nfa;
    let t = m.tracks[0];
    let (r, stays) = visited(setup, m, 0, ev, bindings);
    lemma_spaced_later(setup, m, now, ev.ts);
    if !t.done && t.current_step > 0 {
        let s = t.current_step as int;
        let (m1, valid) = rebound(nfa, m, 0, ev.ts);
        if let Some(w) = nfa.global_window {
            if expired(ev.ts, t.anchor_ts, w) {
                let rest = step0_unexpired(m.step0, ev.ts, w);
                lemma_step0_unexpired(m.step0, ev.ts, w);
                assert forall|k: int| 0 <= k < rest.len() implies (#[trigger] rest[k]).anchor_ts
                    <= now && after_matches(m.completions, rest[k].anchor_ts) by {
                    assert(m.step0.contains(rest[k]));
                }
                lemma_rebind_found(rest, 0, ev.ts, w, t.last_step_ts, t.scan_from, t.bindings);
                if let Some(a) = rebind_anchor(
                    rest,
                    0,
                    ev.ts,
                    w,
                    t.last_step_ts,
                    t.scan_from,
                    t.bindings,
                ) {
                    let k = choose|k: int|
                        0 <= k < rest.len() && (#[trigger] rest[k]).anchor_ts == a;
                    assert(after_matches(m.completions, rest[k].anchor_ts));
                }
            }
        }
        assert(steps_spaced(setup, m1, now));
        lemma_spaced_later(setup, m1, now, ev.ts);
        if valid && !poisoned(nfa, ev, s) && takes(nfa, ev, s) && ev.ts > t.last_step_ts {
            let t1 = m1.tracks[0];
            let step = (t1.current_step + 1) as u8;
            let m2 = StepModel {
                tracks: m1.tracks.update(
                    0,
                    TrackView {
                        current_step: step,
                        last_step_ts: ev.ts,
                        max_step_reached: farther(t1.max_step_reached, step),
                        ..t1
                    },
                ),
                ..m1
            };
            assert forall|k: int| 0 <= k < m2.step0.len() implies (
            #[trigger] m2.step0[k]).anchor_ts <= ev.ts by {
                let _ = m1.step0[k];
            }
            if step == nfa.accept_state {
                lemma_spaced_completed(setup, m2, ev.ts);
            }
        }
    }
}

proof fn lemma_spaced_step(
    setup: StepSetup,
    m: StepModel,
    ev: EventView,
    bindings: BindingValueCache,
    now: i64,
)
    requires
        is_chain(&setup.nfa),
        setup.match_all,
        setup.nfa.variable_bindings@.len() == 0,
        steps_spaced(setup, m, now),
        tracks_ok(&setup.nfa, m.tracks),
        now <= ev.ts,
    ensures
        steps_spaced(setup, after_step_event(setup, m, ev, bindings), ev.ts),
{
    let nfa = &setup.nfa;
    if !nfa.is_relevant(ev.event_type) {
        lemma_spaced_later(setup, m, now, ev.ts);
    } else {
        reveal_with_fuel(swept, 3);
        let m1 = swept(setup, m, 0, ev, bindings);
        lemma_spaced_later(setup, m, now, ev.ts);
        if m.tracks.len() == 1 {
            lemma_visited_len(setup, m, 0, ev, bindings);
            lemma_spaced_visited(setup, m, ev, bindings, now);
            let (r, stays) = visited(setup, m, 0, ev, bindings);
            if stays {
                assert(swept(setup, r, 1, ev, bindings) == r);
            } else {
                let m2 = StepModel {
                    tracks: r.tracks.remove(0),
                    active: one_less(r.active),
                    ..r
                };
                assert(m2.tracks =~= Seq::empty());
                assert(swept(setup, m2, 0, ev, bindings) == m2);
                assert(m1 == m2);
                lemma_spaced_same(setup, StepModel { tracks: Seq::empty(), ..r }, m2, ev.ts);
            }
        } else {
            assert(m1 == m);
        }
        assert(steps_spaced(setup, m1, ev.ts));
        if takes(nfa, ev, 0) && may_enter(setup.entry_range, ev.ts) {
            let key = Seq::<BindingView>::empty();
            assert(super::step_counter::step0_key(nfa, bindings, ev.row) == Some(key));
            let kept = StepModel {
                step0: if m1.step0.len() < setup.limit {
                    m1.step0.push(Step0View { anchor_ts: ev.ts, key })
                } else {
                    m1.step0
                },
                ..m1
            };
            assert forall|k: int| 0 <= k < kept.step0.len() implies (
            #[trigger] kept.step0[k]).anchor_ts <= ev.ts by {
                if k < m1.step0.len() {
                    let _ = m1.step0[k];
                }
            }
            if m1.tracks.len() == 1 {
                let t = m1.tracks[0];
                assert(t.bindings =~= key);
                assert(track_with(m1.tracks, key, 0) == Some(0int));
                let m2 = StepModel {
                    tracks: m1.tracks.update(0, started_track(t, ev.ts)),
                    active: super::step_counter::one_more_u32(m1.active),
                    ..kept
                };
                if ev.ts > t.scan_from && t.current_step == 0 && nfa.accept_state == 1 {
                    lemma_spaced_completed(setup, m2, ev.ts);
                }
            } else {
                let m2 = StepModel {
                    tracks: m1.tracks.push(started_track(fresh_track(key), ev.ts)),
                    active: super::step_counter::one_more_u32(m1.active),
                    ..kept
                };
                if nfa.accept_state == 1 {
                    lemma_spaced_completed(setup, m2, ev.ts);
                }
            }
        }
    }
}

proof fn lemma_steps_spaced(setup: StepSetup, history: Seq<StepInput>)
    requires
        is_chain(&setup.nfa),
        setup.match_all,
        setup.nfa.variable_bindings@.len() == 0,
        in_order(events_of(history)),
    ensures
        steps_spaced(
            setup,
            after_steps(setup, fresh_steps(), history),
            if history.len() == 0 {
                i64::MIN
            } else {
                history.last().event.ts
            },
        ),
    decreases history.len(),
{
    if history.len() > 0 {
        let before = history.drop_last();
        let events = events_of(before);
        let all = events_of(history);
        assert forall|i: int, j: int| 0 <= i < j < events.len() implies (#[trigger] events[i]).ts
            <= (#[trigger] events[j]).ts by {
            assert(events[i] == all[i] && events[j] == all[j]);
        }
        lemma_steps_spaced(setup, before);
        lemma_timed(setup, before);
        if before.len() > 0 {
            assert(all[before.len() - 1].ts <= all[before.len() as int].ts);
        }
        lemma_spaced_step(
            setup,
            after_steps(setup, fresh_steps(), before),
            history.last().event,
            history.last().bindings,
            if before.len() == 0 {
                i64::MIN
            } else {
                before.last().event.ts
            },
        );
    }
}

/// Matches of a pattern without variables never overlap: each begins strictly after the
/// one before has ended.
pub proof fn theorem_steps_disjoint(setup: StepSetup, history: Seq<StepInput>)
    requires
        is_chain(&setup.nfa),
        setup.match_all,
        setup.nfa.variable_bindings@.len() == 0,
        in_order(events_of(history)),
    ensures
        disjoint(after_steps(setup, fresh_steps(), history).completions),
{
    lemma_steps_spaced(setup, history);
}

/// Whether a track is in progress.
pub open spec fn in_progress(t: TrackView) -> bool {
    t.current_step > 0 && !t.done
}

/// How many tracks are in progress.
pub open spec fn progress_count(tracks: Seq<TrackView>) -> nat {
    tracks.filter(|t: TrackView| in_progress(t)).len()
}

/// Whether no two tracks have the same bound values.
pub open spec fn distinct_keys(tracks: Seq<TrackView>) -> bool {
    forall|i: int, j: int|
        0 <= i < j < tracks.len() ==> (#[trigger] tracks[i]).bindings != (
        #[trigger] tracks[j]).bindings
}

/// Whether the counts of a state say what it holds, and nothing is over the limit.
pub open spec fn accounted(setup: StepSetup, m: StepModel) -> bool {
    &&& m.active == progress_count(m.tracks)
    &&& distinct_keys(m.tracks)
    &&& m.tracks.len() <= setup.limit
    &&& m.step0.len() <= setup.limit
    &&& m.cap_exceeded == (m.dropped > 0)
}

/// A track counts for itself.
proof fn lemma_progress_split(tracks: Seq<TrackView>, i: int)
    requires
        0 <= i < tracks.len(),
    ensures
        progress_count(tracks) == progress_count(tracks.take(i)) + progress_count(
            tracks.skip(i + 1),
        ) + if in_progress(tracks[i]) {
            1nat
        } else {
            0nat
        },
        progress_count(tracks) <= tracks.len(),
{
    let p = |t: TrackView| in_progress(t);
    let left = tracks.take(i);
    let right = tracks.skip(i + 1);
    assert(tracks =~= left.push(tracks[i]) + right);
    Seq::filter_distributes_over_add(left.push(tracks[i]), right, p);
    assert(left.push(tracks[i]).filter(p) == if p(tracks[i]) {
        left.filter(p).push(tracks[i])
    } else {
        left.filter(p)
    }) by {
        reveal(Seq::filter);
        assert(left.push(tracks[i]).drop_last() =~= left);
    }
    tracks.lemma_filter_len(p);
}

/// Replacing a track changes the count by what the two count.
proof fn lemma_progress_update(tracks: Seq<TrackView>, i: int, t: TrackView)
    requires
        0 <= i < tracks.len(),
        t.bindings == tracks[i].bindings,
    ensures
        progress_count(tracks.update(i, t)) == progress_count(tracks) - (if in_progress(
            tracks[i],
        ) {
            1int
        } else {
            0int
        }) + (if in_progress(t) {
            1int
        } else {
            0int
        }),
        in_progress(tracks[i]) ==> progress_count(tracks) > 0,
        progress_count(tracks) <= tracks.len(),
        distinct_keys(tracks) ==> distinct_keys(tracks.update(i, t)),
{
    let all = tracks.update(i, t);
    lemma_progress_split(tracks, i);
    lemma_progress_split(all, i);
    assert(all.take(i) =~= tracks.take(i));
    assert(all.skip(i + 1) =~= tracks.skip(i + 1));
}

/// The count without a track.
proof fn lemma_progress_remove(tracks: Seq<TrackView>, i: int)
    requires
        0 <= i < tracks.len(),
    ensures
        progress_count(tracks.remove(i)) == progress_count(tracks) - (if in_progress(tracks[i]) {
            1int
        } else {
            0int
        }),
        distinct_keys(tracks) ==> distinct_keys(tracks.remove(i)),
{
    let p = |t: TrackView| in_progress(t);
    lemma_progress_split(tracks, i);
    assert(tracks.remove(i) =~= tracks.take(i) + tracks.skip(i + 1));
    Seq::filter_distributes_over_add(tracks.take(i), tracks.skip(i + 1), p);
}

proof fn lemma_accounted_completed(setup: StepSetup, m: StepModel, i: int, ts: i64)
    requires
        accounted(setup, m),
        setup.limit <= u32::MAX,
        0 <= i < m.tracks.len(),
        in_progress(m.tracks[i]),
        tracks_ok(&setup.nfa, m.tracks),
        setup.nfa.accept_state >= 1,
    ensures
        accounted(setup, completed(setup.match_all, m, i, ts)),
        tracks_ok(&setup.nfa, completed(setup.match_all, m, i, ts).tracks),
{
    let r = completed(setup.match_all, m, i, ts);
    lemma_step0_after(m.step0, ts);
    lemma_progress_update(m.tracks, i, r.tracks[i]);
    assert(r.tracks =~= m.tracks.update(i, r.tracks[i]));
}

proof fn lemma_accounted_visited(
    setup: StepSetup,
    m: StepModel,
    i: int,
    ev: EventView,
    bindings: BindingValueCache,
)
    requires
        accounted(setup, m),
        setup.limit <= u32::MAX,
        linear_wf(&setup.nfa),
        tracks_ok(&setup.nfa, m.tracks),
        0 <= i < m.tracks.len(),
    ensures
        ({
            let (r, stays) = visited(setup, m, i, ev, bindings);
            &&& accounted(setup, r)
            &&& tracks_ok(&setup.nfa, r.tracks)
            &&& r.tracks.len() == m.tracks.len()
            &&& !stays ==> in_progress(r.tracks[i])
        }),
{
    let nfa = &setup.nfa;
    let t = m.tracks[i];
    if in_progress(t) {
        let s = t.current_step as int;
        let (m1, valid) = rebound(nfa, m, i, ev.ts);
        if let Some(w) = nfa.global_window {
            lemma_step0_unexpired(m.step0, ev.ts, w);
        }
        lemma_progress_update(m.tracks, i, m1.tracks[i]);
        assert(m1.tracks =~= m.tracks.update(i, m1.tracks[i]));
        assert(accounted(setup, m1));
        let (r, stays) = visited(setup, m, i, ev, bindings);
        if stays && takes(nfa, ev, s) && ev.ts > t.last_step_ts && advance_agrees(
            nfa.states@[s].transitions@[0],
            t.bindings,
            bindings,
            ev.row,
        ) {
            assert(s < nfa.accept_state);
            let step = (t.current_step + 1) as u8;
            let t2 = TrackView {
                current_step: step,
                last_step_ts: ev.ts,
                max_step_reached: farther(t.max_step_reached, step),
                ..m1.tracks[i]
            };
            let m2 = StepModel { tracks: m1.tracks.update(i, t2), ..m1 };
            lemma_progress_update(m1.tracks, i, t2);
            if step == nfa.accept_state {
                lemma_accounted_completed(setup, m2, i, ev.ts);
            }
        }
    }
}

proof fn lemma_accounted_swept(
    setup: StepSetup,
    m: StepModel,
    i: int,
    ev: EventView,
    bindings: BindingValueCache,
)
    requires
        accounted(setup, m),
        setup.limit <= u32::MAX,
        linear_wf(&setup.nfa),
        tracks_ok(&setup.nfa, m.tracks),
        0 <= i,
    ensures
        accounted(setup, swept(setup, m, i, ev, bindings)),
        tracks_ok(&setup.nfa, swept(setup, m, i, ev, bindings).tracks),
    decreases m.tracks.len() - i,
{
    if i < m.tracks.len() {
        lemma_accounted_visited(setup, m, i, ev, bindings);
        let (m1, stays) = visited(setup, m, i, ev, bindings);
        if stays {
            lemma_accounted_swept(setup, m1, i + 1, ev, bindings);
        } else {
            let m2 = StepModel { tracks: m1.tracks.remove(i), active: one_less(m1.active), ..m1 };
            lemma_progress_remove(m1.tracks, i);
            lemma_progress_split(m1.tracks, i);
            assert forall|k: int| 0 <= k < m2.tracks.len() implies (
            #[trigger] m2.tracks[k]).current_step <= setup.nfa.accept_state by {
                let _ = m1.tracks[if k < i {
                    k
                } else {
                    k + 1
                }];
            }
            lemma_accounted_swept(setup, m2, i, ev, bindings);
        }
    }
}

proof fn lemma_accounted_entered(setup: StepSetup, m: StepModel, ts: i64, key: Seq<BindingView>)
    requires
        accounted(setup, m),
        setup.limit <= u32::MAX,
        linear_wf(&setup.nfa),
        tracks_ok(&setup.nfa, m.tracks),
    ensures
        accounted(setup, entered(setup, m, ts, key)),
        tracks_ok(&setup.nfa, entered(setup, m, ts, key).tracks),
{
    lemma_track_with(m.tracks, key, 0);
    let kept = StepModel {
        step0: if m.step0.len() < setup.limit {
            m.step0.push(Step0View { anchor_ts: ts, key })
        } else {
            m.step0
        },
        ..m
    };
    match track_with(m.tracks, key, 0) {
        Some(i) => {
            let t = m.tracks[i];
            if t.current_step == 0 && !t.done {
                let begun = started_track(t, ts);
                let m1 = StepModel {
                    tracks: m.tracks.update(i, begun),
                    active: one_more_u32(m.active),
                    ..kept
                };
                lemma_progress_update(m.tracks, i, begun);
                lemma_progress_split(m1.tracks, i);
                if setup.nfa.accept_state == 1 {
                    lemma_accounted_completed(setup, m1, i, ts);
                }
            }
        },
        None => {
            if m.tracks.len() < setup.limit {
                let begun = started_track(fresh_track(key), ts);
                let n = m.tracks.len() as int;
                let m1 = StepModel {
                    tracks: m.tracks.push(begun),
                    active: one_more_u32(m.active),
                    ..kept
                };
                lemma_progress_split(m1.tracks, n);
                assert(m1.tracks.take(n) =~= m.tracks);
                assert(progress_count(m1.tracks.skip(n + 1)) == 0) by {
                    reveal(Seq::filter);
                }
                if setup.nfa.accept_state == 1 {
                    lemma_accounted_completed(setup, m1, n, ts);
                }
            }
        },
    }
}

proof fn lemma_accounted(setup: StepSetup, history: Seq<StepInput>)
    requires
        linear_wf(&setup.nfa),
        setup.limit <= u32::MAX,
    ensures
        accounted(setup, after_steps(setup, fresh_steps(), history)),
        tracks_ok(&setup.nfa, after_steps(setup, fresh_steps(), history).tracks),
    decreases history.len(),
{
    if history.len() == 0 {
        reveal(Seq::filter);
    } else {
        let ev = history.last().event;
        let bindings = history.last().bindings;
        lemma_accounted(setup, history.drop_last());
        let m = after_steps(setup, fresh_steps(), history.drop_last());
        if setup.nfa.is_relevant(ev.event_type) {
            lemma_accounted_swept(setup, m, 0, ev, bindings);
            let m1 = swept(setup, m, 0, ev, bindings);
            if let Some(key) = super::step_counter::step0_key(&setup.nfa, bindings, ev.row) {
                lemma_accounted_entered(setup, m1, ev.ts, key);
            }
        }
    }
}

/// The state of an entity keeps its books: the count of active candidates is the number
/// of tracks in progress, every combination of bound values has one track, neither the
/// tracks nor the first-step events are over the limit, and the limit is said to be
/// exceeded exactly where a track was refused. The count has 32 bits, so the limit is
/// one that it can reach.
pub proof fn theorem_steps_accounted(setup: StepSetup, history: Seq<StepInput>)
    requires
        linear_wf(&setup.nfa),
        setup.limit <= u32::MAX,
    ensures
        accounted(setup, after_steps(setup, fresh_steps(), history)),
{
    lemma_accounted(setup, history);
}

} // verus!
