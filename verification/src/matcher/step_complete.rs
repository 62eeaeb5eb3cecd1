//! No match of a linear pattern is missed by the step counter.
//!
//! A chain is a choice of events that take the steps of a linear pattern one after the
//! other, strictly later each time, inside the window and the entry range, with nothing
//! in between that excludes the match. Where a chain begins while no track of its bound
//! values waits, or one whose own anchor lasts until its next step, a match is complete
//! no later than the chain.

use vstd::prelude::*;

use super::bindings::{BindingValueCache, BindingView, bindings_agree, bound_after};
use super::nfa::{EventView, expired, poison_fires, poisoned};
use super::pattern::{CompiledNfa, Transition};
use super::step_counter::{Step0View, StepModel, StepSetup, TrackView, advance_agrees,
    after_step_event, can_rebind, dense, entered, fresh_steps, lemma_visited_len, rebind_anchor, rebound,
    step0_key, step0_unexpired, stepped, swept, takes, track_with, visited};
use super::step_laws::{StepInput, after_steps, events_of, is_chain, lemma_timed, lemma_track_with,
    opens, track_timed};

verus! {

/// Whether an event takes the step from state `s`: it has the type of the first
/// transition, and every predicate of the transition holds on its row.
pub open spec fn takes_step(nfa: &CompiledNfa, ev: EventView, s: int) -> bool {
    let tr = nfa.states@[s].transitions@[0];
    &&& nfa.states@[s].transitions@.len() > 0
    &&& tr.event_type@ == ev.event_type
    &&& forall|p: int|
        0 <= p < tr.predicates@.len() ==> #[trigger] ev.cache.holds(
            nfa.forward_index(s, 0, p),
            ev.row,
        )
}

/// Whether an event is one that poison transition `q` of state `s` is about.
pub open spec fn is_poison(nfa: &CompiledNfa, ev: EventView, s: int, q: int) -> bool {
    let po = nfa.states@[s].poison_transitions@[q];
    &&& po.event_type@ == ev.event_type
    &&& forall|p: int|
        0 <= p < po.predicates@.len() ==> #[trigger] ev.cache.holds(
            nfa.poison_index(s, q, p),
            ev.row,
        )
}

/// Whether an event excludes what waits in state `s`.
pub open spec fn excludes(nfa: &CompiledNfa, ev: EventView, s: int) -> bool {
    exists|q: int|
        0 <= q < nfa.states@[s].poison_transitions@.len() && #[trigger] is_poison(nfa, ev, s, q)
}

/// Whether no more than the window lies between two times, if there is one.
pub open spec fn in_window(nfa: &CompiledNfa, from: i64, to: i64) -> bool {
    nfa.global_window matches Some(w) ==> to - from <= w
}

/// Events of a history, one for each step of a pattern, and the values that the first of
/// them binds.
pub struct Chain {
    pub setup: StepSetup,
    pub history: Seq<StepInput>,
    pub path: Seq<int>,
    pub key: Seq<BindingView>,
}

impl Chain {
    /// The event that takes the step from state `s`.
    pub open spec fn step(self, s: int) -> EventView {
        self.history[self.path[s]].event
    }

    /// The values that the row of that event binds.
    pub open spec fn values(self, s: int) -> BindingValueCache {
        self.history[self.path[s]].bindings
    }

    /// The time of the first step.
    pub open spec fn first(self) -> i64 {
        self.step(0).ts
    }
}

/// Whether every state of a linear pattern but the last is left by a type of event that
/// is listed.
pub open spec fn types_listed(nfa: &CompiledNfa) -> bool {
    forall|s: int|
        0 <= s < nfa.accept_state ==> nfa.is_relevant(
            (#[trigger] nfa.states@[s]).transitions@[0].event_type@,
        )
}

/// Whether the events of a history come in the order of their times.
pub open spec fn in_time(history: Seq<StepInput>) -> bool {
    forall|j: int, k: int|
        0 <= j <= k < history.len() ==> (#[trigger] history[j]).event.ts <= (
        #[trigger] history[k]).event.ts
}

/// Whether the events of a chain take the steps of the pattern one after the other,
/// strictly later each time, with equal bound values, inside the window and the entry
/// range, and no event in between excludes the state that the chain is in, nor a later
/// one.
pub open spec fn is_match(c: Chain) -> bool {
    let nfa = &c.setup.nfa;
    let n = nfa.accept_state as int;
    &&& c.path.len() == n
    &&& 0 <= c.path[0]
    &&& c.path[n - 1] < c.history.len()
    &&& forall|s: int| 0 <= s < n ==> takes_step(nfa, #[trigger] c.step(s), s)
    &&& forall|i: int, j: int|
        0 <= i < j < n ==> c.path[i] < c.path[j] && (#[trigger] c.step(i)).ts < (
        #[trigger] c.step(j)).ts
    &&& in_window(nfa, c.first(), c.step(n - 1).ts)
    &&& c.setup.entry_range matches Some(r) ==> r.start <= c.first() < r.end
    &&& c.first() > i64::MIN
    &&& step0_key(nfa, c.values(0), c.step(0).row) == Some(c.key)
    &&& forall|s: int|
        0 < s < n ==> advance_agrees(
            nfa.states@[s].transitions@[0],
            c.key,
            #[trigger] c.values(s),
            c.step(s).row,
        )
    &&& forall|i: int| 0 < i < n ==> #[trigger] is_undisturbed(c, i)
}

/// Whether no event after step `i - 1` of a chain, up to step `i`, excludes the state
/// that the chain is in, nor a later one.
pub open spec fn is_undisturbed(c: Chain, i: int) -> bool {
    forall|j: int, s: int|
        c.path[i - 1] < j <= c.path[i] && i <= s < c.path.len() ==> !#[trigger] excludes(
            &c.setup.nfa,
            c.history[j].event,
            s,
        )
}

/// Whether a track lets a chain begin: it is not done and waits for a first step later
/// than those that are used up, or it is in progress since no later than the chain
/// begins, and its own anchor lasts until the chain takes its next step.
pub open spec fn lets_begin(c: Chain, t: TrackView) -> bool {
    &&& !t.done
    &&& t.scan_from < c.first()
    &&& t.current_step < c.setup.nfa.accept_state
    &&& t.current_step > 0 ==> {
        &&& t.last_step_ts <= c.first()
        &&& in_window(&c.setup.nfa, t.anchor_ts, c.step(t.current_step as int).ts)
    }
}

/// Whether there is room for a first step: for another one to be remembered, and for
/// another track unless there is one with the bound values.
pub open spec fn has_space(c: Chain, m: StepModel) -> bool {
    &&& m.step0.len() < c.setup.limit
    &&& m.tracks.len() < c.setup.limit || (m.tracks.len() == c.setup.limit && exists|i: int|
        0 <= i < m.tracks.len() && (#[trigger] m.tracks[i]).bindings == c.key)
}

proof fn lemma_takes(nfa: &CompiledNfa, ev: EventView, s: int)
    ensures
        takes(nfa, ev, s) == takes_step(nfa, ev, s),
{
}

pub proof fn lemma_excludes(nfa: &CompiledNfa, ev: EventView, s: int)
    ensures
        poisoned(nfa, ev, s) == excludes(nfa, ev, s),
{
    assert forall|q: int| poison_fires(nfa, ev, s, q) == is_poison(nfa, ev, s, q) by {}
    if poisoned(nfa, ev, s) {
        let q = choose|q: int|
            0 <= q < nfa.states@[s].poison_transitions@.len() && #[trigger] poison_fires(
                nfa,
                ev,
                s,
                q,
            );
        assert(is_poison(nfa, ev, s, q));
    }
    if excludes(nfa, ev, s) {
        let q = choose|q: int|
            0 <= q < nfa.states@[s].poison_transitions@.len() && #[trigger] is_poison(nfa, ev, s, q);
        assert(poison_fires(nfa, ev, s, q));
    }
}

/// Whether a track goes on with a chain that has taken `q` steps, the last of them at
/// `upto`: it is as far or farther, and either it has made a step since the chain began
/// or its anchor lasts until its next step.
spec fn goes_on(c: Chain, t: TrackView, q: int, upto: i64, now: i64) -> bool {
    &&& t.bindings == c.key
    &&& !t.done
    &&& q <= t.current_step < c.setup.nfa.accept_state
    &&& t.current_step > q || t.last_step_ts <= upto
    &&& t.last_step_ts <= now
    &&& t.scan_from < c.first()
    &&& t.last_step_ts >= c.first() || in_window(
        &c.setup.nfa,
        t.anchor_ts,
        c.step(t.current_step as int).ts,
    )
}

/// The first step of a chain as it is remembered.
spec fn beginning_of(c: Chain) -> Step0View {
    Step0View { anchor_ts: c.first(), key: c.key }
}

/// Whether a chain that has taken `q` steps is followed.
spec fn is_followed(c: Chain, m: StepModel, q: int, upto: i64, now: i64) -> bool {
    &&& m.step0.contains(beginning_of(c))
    &&& exists|k: int| 0 <= k < m.tracks.len() && goes_on(c, #[trigger] m.tracks[k], q, upto, now)
}

/// An anchor is found where one can be used.
proof fn lemma_rebind_exists(
    d: Seq<Step0View>,
    i: int,
    k: int,
    event_ts: i64,
    window: i64,
    last_step_ts: i64,
    scan_from: i64,
    key: Seq<BindingView>,
)
    requires
        0 <= i <= k < d.len(),
        can_rebind(d[k], event_ts, window, last_step_ts, scan_from, key),
    ensures
        rebind_anchor(d, i, event_ts, window, last_step_ts, scan_from, key) is Some,
    decreases k - i,
{
    if i < k {
        lemma_rebind_exists(d, i + 1, k, event_ts, window, last_step_ts, scan_from, key);
    }
}

/// A first step inside the window stays remembered.
proof fn lemma_unexpired_kept(d: Seq<Step0View>, e: Step0View, event_ts: i64, window: i64)
    requires
        d.contains(e),
        event_ts - e.anchor_ts <= window,
    ensures
        step0_unexpired(d, event_ts, window).contains(e),
{
    let keep = |x: Step0View| !expired(event_ts, x.anchor_ts, window);
    let i = choose|i: int| 0 <= i < d.len() && d[i] == e;
    d.lemma_filter_contains(keep, i);
}

/// Whether event `j` comes after the beginning of a chain and no later than its end.
spec fn inside(c: Chain, j: int) -> bool {
    &&& is_chain(&c.setup.nfa)
    &&& is_match(c)
    &&& in_time(c.history)
    &&& c.path[0] <= j <= c.path[c.path.len() - 1]
}

proof fn lemma_inside(c: Chain, j: int)
    requires
        inside(c, j),
    ensures
        0 <= j < c.history.len(),
        c.first() <= c.history[j].event.ts <= c.step(c.path.len() - 1).ts,
        in_window(&c.setup.nfa, c.first(), c.history[j].event.ts),
{
    let n = c.path.len() as int;
    let _ = c.step(0);
    let _ = c.step(n - 1);
    assert(c.history[c.path[0]].event.ts <= c.history[j].event.ts);
    assert(c.history[j].event.ts <= c.history[c.path[n - 1]].event.ts);
}

/// What one track sees of an event changes no other track.
proof fn lemma_visited_others(
    setup: StepSetup,
    m: StepModel,
    i: int,
    ev: EventView,
    bindings: BindingValueCache,
    k: int,
)
    requires
        0 <= i < m.tracks.len(),
        0 <= k < m.tracks.len(),
        k != i,
    ensures
        visited(setup, m, i, ev, bindings).0.tracks.len() == m.tracks.len(),
        visited(setup, m, i, ev, bindings).0.tracks[k] == m.tracks[k],
{
}

/// No match is taken back.
proof fn lemma_visited_more(
    setup: StepSetup,
    m: StepModel,
    i: int,
    ev: EventView,
    bindings: BindingValueCache,
)
    requires
        0 <= i < m.tracks.len(),
    ensures
        visited(setup, m, i, ev, bindings).0.completions.len() >= m.completions.len(),
{
}

/// The beginning of a chain stays remembered until a match is complete.
proof fn lemma_visited_remembers(c: Chain, m: StepModel, i: int, j: int)
    requires
        inside(c, j),
        0 <= i < m.tracks.len(),
        m.step0.contains(beginning_of(c)),
    ensures
        ({
            let m1 = visited(
                c.setup,
                m,
                i,
                c.history[j].event,
                c.history[j].bindings,
            ).0;
            m1.completions.len() > m.completions.len() || m1.step0.contains(beginning_of(c))
        }),
{
    let ev = c.history[j].event;
    lemma_inside(c, j);
    if let Some(w) = c.setup.nfa.global_window {
        lemma_unexpired_kept(m.step0, beginning_of(c), ev.ts, w);
    }
}

/// A track goes on with a chain over an event, and takes the step with it where the
/// event is the next one of the chain.
proof fn lemma_visited_goes_on(
    c: Chain,
    m: StepModel,
    i: int,
    j: int,
    q: int,
    upto: i64,
    now: i64,
    q2: int,
    upto2: i64,
)
    requires
        inside(c, j),
        0 <= i < m.tracks.len(),
        m.step0.contains(beginning_of(c)),
        1 <= q < c.path.len(),
        c.path[q - 1] < j <= c.path[q],
        now <= c.history[j].event.ts,
        goes_on(c, m.tracks[i], q, upto, now),
        ({
            ||| q2 == q && upto2 == upto
            ||| q2 == q + 1 && upto2 == c.history[j].event.ts && j == c.path[q] && upto
                < c.history[j].event.ts
        }),
    ensures
        ({
            let ev = c.history[j].event;
            let (m1, stays) = visited(c.setup, m, i, ev, c.history[j].bindings);
            m1.completions.len() > m.completions.len() || (stays && goes_on(
                c,
                m1.tracks[i],
                q2,
                upto2,
                ev.ts,
            ))
        }),
{
    let nfa = &c.setup.nfa;
    let ev = c.history[j].event;
    let b = c.history[j].bindings;
    let t = m.tracks[i];
    let s = t.current_step as int;
    let n = c.path.len() as int;
    lemma_inside(c, j);
    assert(c.path[q] <= c.path[s]) by {
        if q < s {
            let _ = c.step(q);
            let _ = c.step(s);
        }
    }
    assert(ev.ts <= c.step(s).ts) by {
        let _ = c.step(n - 1);
        if s < n - 1 {
            let _ = c.step(s);
        }
        assert(c.history[j].event.ts <= c.history[c.path[s]].event.ts);
    }
    lemma_excludes(nfa, ev, s);
    assert(!excludes(nfa, c.history[j].event, s)) by {
        assert(is_undisturbed(c, q));
    }
    let (m1, valid) = rebound(nfa, m, i, ev.ts);
    if let Some(w) = nfa.global_window {
        if expired(ev.ts, t.anchor_ts, w) {
            assert(t.last_step_ts >= c.first());
            let step0 = step0_unexpired(m.step0, ev.ts, w);
            lemma_unexpired_kept(m.step0, beginning_of(c), ev.ts, w);
            let k = choose|k: int| 0 <= k < step0.len() && step0[k] == beginning_of(c);
            assert(can_rebind(step0[k], ev.ts, w, t.last_step_ts, t.scan_from, t.bindings));
            lemma_rebind_exists(
                step0,
                0,
                k,
                ev.ts,
                w,
                t.last_step_ts,
                t.scan_from,
                t.bindings,
            );
        }
    }
    assert(valid);
    let t1 = m1.tracks[i];
    assert(t1 == (TrackView { anchor_ts: t1.anchor_ts, ..t }));
    assert(goes_on(c, t1, q, upto, now));
    if j == c.path[q] && s == q {
        assert(c.step(q) == ev);
        assert(c.values(q) == b);
        lemma_takes(nfa, ev, s);
    }
    if takes(nfa, ev, s) && ev.ts > t.last_step_ts && advance_agrees(
        nfa.states@[s].transitions@[0],
        t.bindings,
        b,
        ev.row,
    ) {
        let m2 = stepped(c.setup, m1, i, ev.ts);
        if s + 1 < n {
            assert(m2.tracks[i].last_step_ts == ev.ts);
            assert(goes_on(c, m2.tracks[i], q2, upto2, ev.ts));
        } else {
            assert(m2.completions.len() > m.completions.len());
        }
    } else {
        assert(goes_on(c, t1, q2, upto2, ev.ts));
    }
}

/// No match is taken back.
proof fn lemma_swept_more(
    setup: StepSetup,
    m: StepModel,
    i: int,
    ev: EventView,
    bindings: BindingValueCache,
)
    requires
        0 <= i,
    ensures
        swept(setup, m, i, ev, bindings).completions.len() >= m.completions.len(),
        swept(setup, m, i, ev, bindings).tracks.len() <= m.tracks.len(),
    decreases m.tracks.len() - i,
{
    if i < m.tracks.len() {
        lemma_visited_len(setup, m, i, ev, bindings);
        lemma_visited_more(setup, m, i, ev, bindings);
        let (m1, stays) = visited(setup, m, i, ev, bindings);
        if stays {
            lemma_swept_more(setup, m1, i + 1, ev, bindings);
        } else {
            let m2 = StepModel {
                tracks: m1.tracks.remove(i),
                active: super::step_counter::one_less(m1.active),
                ..m1
            };
            lemma_swept_more(setup, m2, i, ev, bindings);
        }
    }
}

/// Over the sweep of an event a chain stays followed, until a match is complete.
proof fn lemma_swept_goes_on(
    c: Chain,
    m: StepModel,
    i: int,
    k: int,
    j: int,
    q: int,
    upto: i64,
    now: i64,
    q2: int,
    upto2: i64,
)
    requires
        inside(c, j),
        0 <= i <= m.tracks.len(),
        0 <= k < m.tracks.len(),
        m.step0.contains(beginning_of(c)),
        1 <= q < c.path.len(),
        c.path[q - 1] < j <= c.path[q],
        now <= c.history[j].event.ts,
        if k < i {
            goes_on(c, m.tracks[k], q2, upto2, c.history[j].event.ts)
        } else {
            goes_on(c, m.tracks[k], q, upto, now)
        },
        ({
            ||| q2 == q && upto2 == upto
            ||| q2 == q + 1 && upto2 == c.history[j].event.ts && j == c.path[q] && upto
                < c.history[j].event.ts
        }),
    ensures
        ({
            let ev = c.history[j].event;
            let r = swept(c.setup, m, i, ev, c.history[j].bindings);
            r.completions.len() > m.completions.len() || is_followed(c, r, q2, upto2, ev.ts)
        }),
    decreases m.tracks.len() - i,
{
    let ev = c.history[j].event;
    let b = c.history[j].bindings;
    if i < m.tracks.len() {
        lemma_visited_len(c.setup, m, i, ev, b);
        lemma_visited_remembers(c, m, i, j);
        lemma_visited_more(c.setup, m, i, ev, b);
        let (m1, stays) = visited(c.setup, m, i, ev, b);
        let m2 = if stays {
            m1
        } else {
            StepModel {
                tracks: m1.tracks.remove(i),
                active: super::step_counter::one_less(m1.active),
                ..m1
            }
        };
        let i2 = if stays {
            i + 1
        } else {
            i
        };
        if m1.completions.len() > m.completions.len() {
            lemma_swept_more(c.setup, m2, i2, ev, b);
        } else {
            if k == i {
                lemma_visited_goes_on(c, m, i, j, q, upto, now, q2, upto2);
                assert(m2.tracks[k] == m1.tracks[k]);
                lemma_swept_goes_on(c, m2, i2, k, j, q, upto, now, q2, upto2);
            } else {
                lemma_visited_others(c.setup, m, i, ev, b, k);
                let k2 = if !stays && k > i {
                    k - 1
                } else {
                    k
                };
                assert(m2.tracks[k2] == m.tracks[k]);
                lemma_swept_goes_on(c, m2, i2, k2, j, q, upto, now, q2, upto2);
            }
        }
    } else {
        assert(goes_on(c, m.tracks[k], q2, upto2, ev.ts));
    }
}

/// A first step changes no track that is in progress, and takes back no match.
proof fn lemma_entered_keeps(
    setup: StepSetup,
    m: StepModel,
    event_ts: i64,
    key: Seq<BindingView>,
    k: int,
)
    requires
        setup.nfa.accept_state > 1,
        0 <= k < m.tracks.len(),
        m.tracks[k].current_step > 0,
    ensures
        entered(setup, m, event_ts, key).tracks.len() >= m.tracks.len(),
        entered(setup, m, event_ts, key).tracks[k] == m.tracks[k],
        entered(setup, m, event_ts, key).completions == m.completions,
        forall|e: Step0View|
            m.step0.contains(e) ==> #[trigger] entered(setup, m, event_ts, key).step0.contains(e),
{
    lemma_track_with(m.tracks, key, 0);
    let r = entered(setup, m, event_ts, key);
    assert forall|e: Step0View| m.step0.contains(e) implies #[trigger] r.step0.contains(e) by {
        let x = choose|x: int| 0 <= x < m.step0.len() && m.step0[x] == e;
        assert(r.step0[x] == e);
    }
}

/// No match is taken back.
proof fn lemma_entered_more(setup: StepSetup, m: StepModel, event_ts: i64, key: Seq<BindingView>)
    ensures
        entered(setup, m, event_ts, key).completions.len() >= m.completions.len(),
{
}

proof fn lemma_event_more(
    setup: StepSetup,
    m: StepModel,
    ev: EventView,
    bindings: BindingValueCache,
)
    ensures
        after_step_event(setup, m, ev, bindings).completions.len() >= m.completions.len(),
{
    lemma_swept_more(setup, m, 0, ev, bindings);
    if let Some(key) = step0_key(&setup.nfa, bindings, ev.row) {
        lemma_entered_more(setup, swept(setup, m, 0, ev, bindings), ev.ts, key);
    }
}

/// Over an event a chain stays followed, until a match is complete.
proof fn lemma_event_goes_on(
    c: Chain,
    m: StepModel,
    j: int,
    q: int,
    upto: i64,
    now: i64,
    q2: int,
    upto2: i64,
)
    requires
        inside(c, j),
        types_listed(&c.setup.nfa),
        1 <= q < c.path.len(),
        c.path[q - 1] < j <= c.path[q],
        now <= c.history[j].event.ts,
        is_followed(c, m, q, upto, now),
        ({
            ||| q2 == q && upto2 == upto && j < c.path[q]
            ||| q2 == q + 1 && upto2 == c.history[j].event.ts && j == c.path[q] && upto
                < c.history[j].event.ts
        }),
    ensures
        ({
            let ev = c.history[j].event;
            let r = after_step_event(c.setup, m, ev, c.history[j].bindings);
            r.completions.len() > m.completions.len() || is_followed(c, r, q2, upto2, ev.ts)
        }),
{
    let nfa = &c.setup.nfa;
    let ev = c.history[j].event;
    let b = c.history[j].bindings;
    let k = choose|k: int|
        0 <= k < m.tracks.len() && goes_on(c, #[trigger] m.tracks[k], q, upto, now);
    if j == c.path[q] {
        assert(c.step(q) == ev);
        assert(takes_step(nfa, ev, q));
        let _ = nfa.states@[q];
        assert(nfa.is_relevant(ev.event_type));
    }
    if nfa.is_relevant(ev.event_type) {
        lemma_swept_goes_on(c, m, 0, k, j, q, upto, now, q2, upto2);
        lemma_event_more(c.setup, m, ev, b);
        let m1 = swept(c.setup, m, 0, ev, b);
        if let Some(key) = step0_key(nfa, b, ev.row) {
            lemma_entered_more(c.setup, m1, ev.ts, key);
            if m1.completions.len() == m.completions.len() {
                let k1 = choose|k1: int|
                    0 <= k1 < m1.tracks.len() && goes_on(
                        c,
                        #[trigger] m1.tracks[k1],
                        q2,
                        upto2,
                        ev.ts,
                    );
                lemma_entered_keeps(c.setup, m1, ev.ts, key, k1);
                let m2 = entered(c.setup, m1, ev.ts, key);
                assert(goes_on(c, m2.tracks[k1], q2, upto2, ev.ts));
            }
        }
        lemma_swept_more(c.setup, m, 0, ev, b);
    } else {
        assert(goes_on(c, m.tracks[k], q2, upto2, ev.ts));
    }
}

/// Whether every track with the bound values of a chain lets it begin.
pub open spec fn all_let_begin(c: Chain, m: StepModel) -> bool {
    forall|i: int|
        0 <= i < m.tracks.len() && (#[trigger] m.tracks[i]).bindings == c.key ==> lets_begin(
            c,
            m.tracks[i],
        )
}

/// Whether the tracks from `i` on let a chain begin, and those before have seen its first
/// event and go on with it.
spec fn half_seen(c: Chain, m: StepModel, i: int) -> bool {
    forall|k: int|
        0 <= k < m.tracks.len() && (#[trigger] m.tracks[k]).bindings == c.key ==> if k < i {
            seen_first(c, m.tracks[k])
        } else {
            lets_begin(c, m.tracks[k])
        }
}

/// Whether a track that has seen the first event of a chain waits, or goes on with it.
spec fn seen_first(c: Chain, t: TrackView) -> bool {
    &&& !t.done
    &&& t.scan_from < c.first()
    &&& t.current_step > 0 ==> goes_on(c, t, 1, c.first(), c.first())
}

proof fn lemma_first_visited(c: Chain, m: StepModel, i: int)
    requires
        inside(c, c.path[0]),
        0 <= i < m.tracks.len(),
        m.tracks[i].bindings == c.key,
        lets_begin(c, m.tracks[i]),
    ensures
        ({
            let (m1, stays) = visited(
                c.setup,
                m,
                i,
                c.step(0),
                c.values(0),
            );
            m1.completions.len() > m.completions.len() || !stays || seen_first(c, m1.tracks[i])
        }),
{
    let nfa = &c.setup.nfa;
    let ev = c.step(0);
    let t = m.tracks[i];
    let s = t.current_step as int;
    let n = c.path.len() as int;
    if s > 0 {
        let _ = c.step(s);
        assert(ev.ts <= c.step(s).ts);
        let (m1, valid) = rebound(nfa, m, i, ev.ts);
        assert(valid && m1 == m);
        if !poisoned(nfa, ev, s) {
            if takes(nfa, ev, s) && ev.ts > t.last_step_ts && advance_agrees(
                nfa.states@[s].transitions@[0],
                t.bindings,
                c.values(0),
                ev.row,
            ) {
                let m2 = stepped(c.setup, m1, i, ev.ts);
                if s + 1 == n {
                    assert(m2.completions.len() > m.completions.len());
                } else {
                    assert(seen_first(c, m2.tracks[i]));
                }
            } else {
                assert(seen_first(c, t));
            }
        }
    }
}

proof fn lemma_first_swept(c: Chain, m: StepModel, i: int)
    requires
        inside(c, c.path[0]),
        0 <= i <= m.tracks.len(),
        half_seen(c, m, i),
    ensures
        ({
            let r = swept(c.setup, m, i, c.step(0), c.values(0));
            ||| r.completions.len() > m.completions.len()
            ||| half_seen(c, r, r.tracks.len() as int) && (r.tracks.len() < m.tracks.len()
                || forall|k: int|
                0 <= k < m.tracks.len() ==> (#[trigger] r.tracks[k]).bindings
                    == m.tracks[k].bindings)
        }),
        swept(c.setup, m, i, c.step(0), c.values(0)).tracks.len() <= m.tracks.len(),
    decreases m.tracks.len() - i,
{
    let ev = c.step(0);
    let b = c.values(0);
    lemma_swept_more(c.setup, m, i, ev, b);
    if i < m.tracks.len() {
        lemma_visited_len(c.setup, m, i, ev, b);
        lemma_visited_more(c.setup, m, i, ev, b);
        let (m1, stays) = visited(c.setup, m, i, ev, b);
        let m2 = if stays {
            m1
        } else {
            StepModel {
                tracks: m1.tracks.remove(i),
                active: super::step_counter::one_less(m1.active),
                ..m1
            }
        };
        let i2 = if stays {
            i + 1
        } else {
            i
        };
        lemma_swept_more(c.setup, m2, i2, ev, b);
        if m.tracks[i].bindings == c.key {
            lemma_first_visited(c, m, i);
        }
        lemma_visited_same_key(c.setup, m, i, ev, b);
        if m1.completions.len() == m.completions.len() {
            assert forall|k: int|
                0 <= k < m2.tracks.len() && (#[trigger] m2.tracks[k]).bindings == c.key implies if k
                < i2 {
                seen_first(c, m2.tracks[k])
            } else {
                lets_begin(c, m2.tracks[k])
            } by {
                let k0 = if !stays && k >= i {
                    k + 1
                } else {
                    k
                };
                assert(m2.tracks[k] == m1.tracks[k0]);
                if k0 != i {
                    lemma_visited_others(c.setup, m, i, ev, b, k0);
                }
            }
            lemma_first_swept(c, m2, i2);
            let r = swept(c.setup, m2, i2, ev, b);
            if r.completions.len() == m.completions.len() && r.tracks.len() == m.tracks.len() {
                assert(stays);
                assert forall|k: int| 0 <= k < m.tracks.len() implies (
                #[trigger] r.tracks[k]).bindings == m.tracks[k].bindings by {
                    if k != i {
                        lemma_visited_others(c.setup, m, i, ev, b, k);
                    }
                }
            }
        }
    }
}

proof fn lemma_visited_same_key(
    setup: StepSetup,
    m: StepModel,
    i: int,
    ev: EventView,
    bindings: BindingValueCache,
)
    requires
        0 <= i < m.tracks.len(),
    ensures
        visited(setup, m, i, ev, bindings).0.tracks[i].bindings == m.tracks[i].bindings,
{
}

/// The first event of a chain lets it be followed, or completes a match.
proof fn lemma_first_event(c: Chain, m: StepModel)
    requires
        inside(c, c.path[0]),
        types_listed(&c.setup.nfa),
        all_let_begin(c, m),
        has_space(c, m),
    ensures
        ({
            let r = after_step_event(c.setup, m, c.step(0), c.values(0));
            r.completions.len() > m.completions.len() || (c.path.len() > 1 && is_followed(
                c,
                r,
                1,
                c.first(),
                c.first(),
            ))
        }),
{
    let nfa = &c.setup.nfa;
    let ev = c.step(0);
    let b = c.values(0);
    let m1 = swept(c.setup, m, 0, ev, b);
    lemma_first_swept(c, m, 0);
    lemma_swept_more(c.setup, m, 0, ev, b);
    assert(takes_step(nfa, ev, 0));
    lemma_takes(nfa, ev, 0);
    let _ = nfa.states@[0];
    assert(nfa.is_relevant(ev.event_type));
    let r = entered(c.setup, m1, ev.ts, c.key);
    assert(r == after_step_event(c.setup, m, ev, b));
    lemma_entered_more(c.setup, m1, ev.ts, c.key);
    if m1.completions.len() == m.completions.len() {
        lemma_track_with(m1.tracks, c.key, 0);
        lemma_swept_step0(c.setup, m, 0, ev, b);
        let kept = m1.step0.push(beginning_of(c));
        assert(kept[m1.step0.len() as int] == beginning_of(c));
        match track_with(m1.tracks, c.key, 0) {
            Some(f) => {
                let t = m1.tracks[f];
                assert(seen_first(c, t));
                if t.current_step > 0 {
                    assert(goes_on(c, t, 1, c.first(), c.first()));
                    assert(r.step0 == kept);
                    assert(r.tracks == m1.tracks);
                    assert(is_followed(c, r, 1, c.first(), c.first()));
                } else if nfa.accept_state > 1 {
                    assert(r.step0 == kept);
                    assert(goes_on(c, r.tracks[f], 1, c.first(), c.first()));
                }
            },
            None => {
                if m1.tracks.len() == m.tracks.len() && m.tracks.len() == c.setup.limit {
                    let k = choose|k: int|
                        0 <= k < m.tracks.len() && (#[trigger] m.tracks[k]).bindings == c.key;
                    assert(m1.tracks[k].bindings == c.key);
                }
                assert(m1.tracks.len() < c.setup.limit);
                if nfa.accept_state > 1 {
                    assert(r.step0 == kept);
                    assert(goes_on(
                        c,
                        r.tracks[m1.tracks.len() as int],
                        1,
                        c.first(),
                        c.first(),
                    ));
                }
            },
        }
    }
}

/// A sweep remembers no more first steps.
proof fn lemma_swept_step0(
    setup: StepSetup,
    m: StepModel,
    i: int,
    ev: EventView,
    bindings: BindingValueCache,
)
    requires
        0 <= i,
    ensures
        swept(setup, m, i, ev, bindings).step0.len() <= m.step0.len(),
    decreases m.tracks.len() - i,
{
    if i < m.tracks.len() {
        lemma_visited_len(setup, m, i, ev, bindings);
        let (m1, stays) = visited(setup, m, i, ev, bindings);
        assert(m1.step0.len() <= m.step0.len()) by {
            lemma_visited_step0(setup, m, i, ev, bindings);
        }
        if stays {
            lemma_swept_step0(setup, m1, i + 1, ev, bindings);
        } else {
            let m2 = StepModel {
                tracks: m1.tracks.remove(i),
                active: super::step_counter::one_less(m1.active),
                ..m1
            };
            lemma_swept_step0(setup, m2, i, ev, bindings);
        }
    }
}

proof fn lemma_visited_step0(
    setup: StepSetup,
    m: StepModel,
    i: int,
    ev: EventView,
    bindings: BindingValueCache,
)
    requires
        0 <= i < m.tracks.len(),
    ensures
        visited(setup, m, i, ev, bindings).0.step0.len() <= m.step0.len(),
{
    let (m1, _valid) = rebound(&setup.nfa, m, i, ev.ts);
    if let Some(w) = setup.nfa.global_window {
        super::step_counter::lemma_step0_unexpired(m.step0, ev.ts, w);
    }
    super::step_counter::lemma_step0_after(m1.step0, ev.ts);
}

proof fn lemma_steps_more(setup: StepSetup, m: StepModel, history: Seq<StepInput>, a: int, b: int)
    requires
        0 <= a <= b <= history.len(),
    ensures
        after_steps(setup, m, history.take(b)).completions.len() >= after_steps(
            setup,
            m,
            history.take(a),
        ).completions.len(),
    decreases b - a,
{
    if a < b {
        lemma_steps_more(setup, m, history, a, b - 1);
        assert(history.take(b).drop_last() =~= history.take(b - 1));
        lemma_event_more(
            setup,
            after_steps(setup, m, history.take(b - 1)),
            history[b - 1].event,
            history[b - 1].bindings,
        );
    }
}

/// No track is past the last step.
proof fn lemma_not_past_end(c: Chain, m: StepModel, upto: i64, now: i64)
    requires
        is_match(c),
    ensures
        !is_followed(c, m, c.path.len() as int, upto, now),
{
}

/// The state in which the first event of a chain is met.
pub open spec fn met_in(c: Chain, m: StepModel) -> StepModel {
    after_steps(c.setup, m, c.history.take(c.path[0]))
}

/// After the events up to `j` a chain is followed as far as it went, or a match is
/// complete.
proof fn lemma_walked_along(c: Chain, m: StepModel, j: int, q: int)
    requires
        inside(c, j),
        types_listed(&c.setup.nfa),
        all_let_begin(c, met_in(c, m)),
        has_space(c, met_in(c, m)),
        1 <= q <= c.path.len(),
        c.path[q - 1] <= j,
        q < c.path.len() ==> j < c.path[q],
    ensures
        ({
            let r = after_steps(c.setup, m, c.history.take(j + 1));
            ||| r.completions.len() > met_in(c, m).completions.len()
            ||| q < c.path.len() && is_followed(
                c,
                r,
                q,
                c.step(q - 1).ts,
                c.history[j].event.ts,
            )
        }),
    decreases j,
{
    let n = c.path.len() as int;
    let taken = c.history.take(j + 1);
    lemma_inside(c, j);
    assert(taken.drop_last() =~= c.history.take(j));
    assert(taken.last() == c.history[j]);
    let before = after_steps(c.setup, m, c.history.take(j));
    let ev = c.history[j].event;
    let r = after_steps(c.setup, m, taken);
    assert(r == after_step_event(c.setup, before, ev, c.history[j].bindings));
    if j == c.path[0] {
        assert(q == 1) by {
            if q > 1 {
                let _ = c.step(0);
                let _ = c.step(q - 1);
            }
        }
        lemma_first_event(c, before);
    } else {
        assert(c.history[j - 1].event.ts <= c.history[j].event.ts);
        lemma_event_more(c.setup, before, ev, c.history[j].bindings);
        lemma_steps_more(c.setup, m, c.history, c.path[0], j);
        if j > c.path[q - 1] {
            lemma_walked_along(c, m, j - 1, q);
            if before.completions.len() <= met_in(c, m).completions.len() {
                lemma_event_goes_on(
                    c,
                    before,
                    j,
                    q,
                    c.step(q - 1).ts,
                    c.history[j - 1].event.ts,
                    q,
                    c.step(q - 1).ts,
                );
            }
        } else {
            assert(q > 1);
            assert(c.path[q - 2] < c.path[q - 1] && c.step(q - 2).ts < c.step(q - 1).ts) by {
                let _ = c.step(q - 2);
                let _ = c.step(q - 1);
            }
            assert(c.path[0] <= c.path[q - 2]) by {
                if q > 2 {
                    let _ = c.step(0);
                    let _ = c.step(q - 2);
                }
            }
            lemma_walked_along(c, m, j - 1, q - 1);
            if before.completions.len() <= met_in(c, m).completions.len() {
                lemma_event_goes_on(
                    c,
                    before,
                    j,
                    q - 1,
                    c.step(q - 2).ts,
                    c.history[j - 1].event.ts,
                    q,
                    ev.ts,
                );
                if q == n {
                    lemma_not_past_end(c, r, ev.ts, ev.ts);
                }
            }
        }
    }
}

/// No match is missed: a chain whose first event is met in a state where every track of
/// its bound values lets it begin, and where there is room for a first step, leads to a
/// match no later than with its last event.
pub proof fn theorem_steps_complete(c: Chain, m: StepModel)
    requires
        is_chain(&c.setup.nfa),
        types_listed(&c.setup.nfa),
        in_time(c.history),
        is_match(c),
        all_let_begin(c, met_in(c, m)),
        has_space(c, met_in(c, m)),
    ensures
        after_steps(
            c.setup,
            m,
            c.history.take(c.path[c.path.len() - 1] + 1),
        ).completions.len() > met_in(c, m).completions.len(),
{
    let n = c.path.len() as int;
    let _ = c.step(0);
    let _ = c.step(n - 1);
    lemma_walked_along(c, m, c.path[n - 1], n);
}

/// Whether a track has never completed a match, and its last step is no later than `now`.
spec fn is_young(setup: StepSetup, t: TrackView, now: i64) -> bool {
    &&& !t.done
    &&& t.scan_from == i64::MIN
    &&& t.current_step < setup.nfa.accept_state
    &&& t.current_step > 0 ==> t.last_step_ts <= now
}

/// Whether a match is complete, or no track has completed one.
spec fn all_young(setup: StepSetup, m: StepModel, now: i64) -> bool {
    m.completions.len() > 0 || forall|i: int|
        0 <= i < m.tracks.len() ==> is_young(setup, #[trigger] m.tracks[i], now)
}

proof fn lemma_young_visited(
    setup: StepSetup,
    m: StepModel,
    i: int,
    ev: EventView,
    bindings: BindingValueCache,
)
    requires
        is_chain(&setup.nfa),
        0 <= i < m.tracks.len(),
        all_young(setup, m, ev.ts),
    ensures
        all_young(setup, visited(setup, m, i, ev, bindings).0, ev.ts),
{
    lemma_visited_more(setup, m, i, ev, bindings);
    let (m1, _stays) = visited(setup, m, i, ev, bindings);
    if m1.completions.len() == 0 {
        assert forall|k: int| 0 <= k < m1.tracks.len() implies is_young(
            setup,
            #[trigger] m1.tracks[k],
            ev.ts,
        ) by {
            assert(is_young(setup, m.tracks[k], ev.ts));
            assert(is_young(setup, m.tracks[i], ev.ts));
            if k != i {
                lemma_visited_others(setup, m, i, ev, bindings, k);
            }
        }
    }
}

proof fn lemma_young_swept(
    setup: StepSetup,
    m: StepModel,
    i: int,
    ev: EventView,
    bindings: BindingValueCache,
)
    requires
        is_chain(&setup.nfa),
        0 <= i,
        all_young(setup, m, ev.ts),
    ensures
        all_young(setup, swept(setup, m, i, ev, bindings), ev.ts),
    decreases m.tracks.len() - i,
{
    if i < m.tracks.len() {
        lemma_visited_len(setup, m, i, ev, bindings);
        lemma_young_visited(setup, m, i, ev, bindings);
        let (m1, stays) = visited(setup, m, i, ev, bindings);
        if stays {
            lemma_young_swept(setup, m1, i + 1, ev, bindings);
        } else {
            let m2 = StepModel {
                tracks: m1.tracks.remove(i),
                active: super::step_counter::one_less(m1.active),
                ..m1
            };
            if m1.completions.len() == 0 {
                assert forall|k: int| 0 <= k < m2.tracks.len() implies is_young(
                    setup,
                    #[trigger] m2.tracks[k],
                    ev.ts,
                ) by {
                    let _ = m1.tracks[k];
                    let _ = m1.tracks[k + 1];
                }
            }
            lemma_young_swept(setup, m2, i, ev, bindings);
        }
    }
}

/// How many of the first `n` events take the first step.
pub open spec fn first_steps(setup: StepSetup, history: Seq<StepInput>, n: int) -> nat {
    history.take(n).filter(|x: StepInput| takes_step(&setup.nfa, x.event, 0)).len()
}

/// After some events a match is complete, or no track has completed one; and there are
/// no more tracks and no more first steps remembered than there were first steps.
proof fn lemma_young(setup: StepSetup, history: Seq<StepInput>, n: int)
    requires
        is_chain(&setup.nfa),
        in_time(history),
        0 <= n <= history.len(),
    ensures
        ({
            let m = after_steps(setup, fresh_steps(), history.take(n));
            &&& m.tracks.len() <= first_steps(setup, history, n)
            &&& m.step0.len() <= first_steps(setup, history, n)
            &&& n == 0 ==> m.tracks.len() == 0 && m.completions.len() == 0
            &&& n > 0 ==> all_young(setup, m, history[n - 1].event.ts)
        }),
    decreases n,
{
    reveal(Seq::filter);
    if n > 0 {
        lemma_young(setup, history, n - 1);
        lemma_takes(&setup.nfa, history[n - 1].event, 0);
        assert(history.take(n).drop_last() =~= history.take(n - 1));
        let m0 = after_steps(setup, fresh_steps(), history.take(n - 1));
        let ev = history[n - 1].event;
        let b = history[n - 1].bindings;
        let m = after_step_event(setup, m0, ev, b);
        assert(m == after_steps(setup, fresh_steps(), history.take(n)));
        lemma_event_more(setup, m0, ev, b);
        assert(all_young(setup, m0, ev.ts)) by {
            if n > 1 && m0.completions.len() == 0 {
                assert(history[n - 2].event.ts <= history[n - 1].event.ts);
                assert forall|k: int| 0 <= k < m0.tracks.len() implies is_young(
                    setup,
                    #[trigger] m0.tracks[k],
                    ev.ts,
                ) by {
                    assert(is_young(setup, m0.tracks[k], history[n - 2].event.ts));
                }
            }
        }
        lemma_young_swept(setup, m0, 0, ev, b);
        lemma_swept_more(setup, m0, 0, ev, b);
        lemma_swept_step0(setup, m0, 0, ev, b);
        let m1 = swept(setup, m0, 0, ev, b);
        if let Some(key) = step0_key(&setup.nfa, b, ev.row) {
            lemma_track_with(m1.tracks, key, 0);
            lemma_entered_more(setup, m1, ev.ts, key);
            lemma_entered_young(setup, m1, ev.ts, key);
        }
    }
}

proof fn lemma_entered_young(setup: StepSetup, m: StepModel, ts: i64, key: Seq<BindingView>)
    requires
        is_chain(&setup.nfa),
        all_young(setup, m, ts),
    ensures
        all_young(setup, entered(setup, m, ts, key), ts),
        entered(setup, m, ts, key).tracks.len() <= m.tracks.len() + 1,
        entered(setup, m, ts, key).step0.len() <= m.step0.len() + 1,
{
    lemma_track_with(m.tracks, key, 0);
    lemma_entered_more(setup, m, ts, key);
    let r = entered(setup, m, ts, key);
    super::step_counter::lemma_step0_after(
        m.step0.push(Step0View { anchor_ts: ts, key }),
        ts,
    );
    super::step_counter::lemma_step0_after(m.step0, ts);
    if r.completions.len() == 0 {
        assert forall|k: int| 0 <= k < r.tracks.len() implies is_young(
            setup,
            #[trigger] r.tracks[k],
            ts,
        ) by {
            if k < m.tracks.len() {
                assert(is_young(setup, m.tracks[k], ts));
            }
        }
    }
}

/// From the first event of an entity on, no match is missed: where events lead through
/// the steps of a linear pattern inside the window, and the first step of the pattern was
/// not taken by an earlier event more than the window before the last of them, a match is
/// complete no later than with the last of them, as long as the limit is not reached.
pub proof fn theorem_steps_found(c: Chain)
    requires
        is_chain(&c.setup.nfa),
        types_listed(&c.setup.nfa),
        in_time(c.history),
        is_match(c),
        first_steps(c.setup, c.history, c.path[0]) < c.setup.limit,
        forall|j: int|
            0 <= j < c.path[0] && takes_step(
                &c.setup.nfa,
                (#[trigger] c.history[j]).event,
                0,
            ) ==> in_window(
                &c.setup.nfa,
                c.history[j].event.ts,
                c.step(c.path.len() - 1).ts,
            ),
    ensures
        after_steps(
            c.setup,
            fresh_steps(),
            c.history.take(c.path[c.path.len() - 1] + 1),
        ).completions.len() > 0,
{
    let n = c.path.len() as int;
    let nfa = &c.setup.nfa;
    let p = c.path[0];
    let _ = c.step(0);
    let _ = c.step(n - 1);
    let before = c.history.take(p);
    let m = met_in(c, fresh_steps());
    lemma_steps_more(c.setup, fresh_steps(), c.history, p, c.path[n - 1] + 1);
    if m.completions.len() == 0 {
        lemma_young(c.setup, c.history, p);
        lemma_timed(c.setup, before);
        assert forall|i: int|
            0 <= i < m.tracks.len() && (#[trigger] m.tracks[i]).bindings == c.key implies lets_begin(
            c,
            m.tracks[i],
        ) by {
            let t = m.tracks[i];
            assert(is_young(c.setup, t, c.history[p - 1].event.ts));
            assert(c.history[p - 1].event.ts <= c.history[p].event.ts);
            if t.current_step > 0 {
                assert(track_timed(c.setup, events_of(before), t));
                let j = choose|j: int|
                    0 <= j < events_of(before).len() && #[trigger] opens(
                        c.setup,
                        events_of(before)[j],
                        t.anchor_ts,
                    );
                assert(events_of(before)[j] == c.history[j].event);
                lemma_takes(nfa, c.history[j].event, 0);
                assert(in_window(nfa, c.history[j].event.ts, c.step(n - 1).ts));
                assert(c.step(t.current_step as int).ts <= c.step(n - 1).ts);
            }
        }
        theorem_steps_complete(c, fresh_steps());
    }
}

/// Whether a track can continue from a first step at the time of an event: the step lies
/// inside the window, not after the last step of the track, after what is used up, and
/// has the bound values of the track.
pub open spec fn is_usable(e: Step0View, t: TrackView, now: i64, window: i64) -> bool {
    &&& now - e.anchor_ts <= window
    &&& t.scan_from < e.anchor_ts <= t.last_step_ts
    &&& t.bindings.len() == 0 || e.key == t.bindings
}

/// Whether first steps are remembered in the order of their times.
pub open spec fn in_step_order(d: Seq<Step0View>) -> bool {
    forall|i: int, j: int|
        0 <= i <= j < d.len() ==> (#[trigger] d[i]).anchor_ts <= (#[trigger] d[j]).anchor_ts
}

proof fn lemma_filter_sorted(d: Seq<Step0View>, keep: spec_fn(Step0View) -> bool)
    requires
        in_step_order(d),
    ensures
        in_step_order(d.filter(keep)),
    decreases d.len(),
{
    reveal(Seq::filter);
    if d.len() > 0 {
        let rest = d.drop_last();
        lemma_filter_sorted(rest, keep);
        let kept = d.filter(keep);
        assert forall|i: int, j: int| 0 <= i <= j < kept.len() implies (
        #[trigger] kept[i]).anchor_ts <= (#[trigger] kept[j]).anchor_ts by {
            if j >= rest.filter(keep).len() && i < j {
                rest.lemma_filter_contains_rev(keep, rest.filter(keep)[i]);
                let x = choose|x: int| 0 <= x < rest.len() && rest[x] == rest.filter(keep)[i];
                assert(d[x].anchor_ts <= d[d.len() - 1].anchor_ts);
            }
        }
    }
}

proof fn lemma_rebind_first(
    d: Seq<Step0View>,
    i: int,
    event_ts: i64,
    window: i64,
    last_step_ts: i64,
    scan_from: i64,
    key: Seq<BindingView>,
)
    requires
        0 <= i,
    ensures
        match rebind_anchor(d, i, event_ts, window, last_step_ts, scan_from, key) {
            Some(a) => exists|k: int|
                i <= k < d.len() && (#[trigger] d[k]).anchor_ts == a && can_rebind(
                    d[k],
                    event_ts,
                    window,
                    last_step_ts,
                    scan_from,
                    key,
                ) && forall|x: int|
                    i <= x < k ==> !can_rebind(
                        #[trigger] d[x],
                        event_ts,
                        window,
                        last_step_ts,
                        scan_from,
                        key,
                    ),
            None => forall|k: int|
                i <= k < d.len() ==> !can_rebind(
                    #[trigger] d[k],
                    event_ts,
                    window,
                    last_step_ts,
                    scan_from,
                    key,
                ),
        },
    decreases d.len() - i,
{
    if i < d.len() && !can_rebind(d[i], event_ts, window, last_step_ts, scan_from, key) {
        lemma_rebind_first(d, i + 1, event_ts, window, last_step_ts, scan_from, key);
    } else if i < d.len() {
        assert(d[i].anchor_ts == d[i].anchor_ts);
    }
}

/// Whether an anchor is that of a first step that a track can continue from, and no such
/// step is earlier where they are remembered in order.
pub open spec fn is_next_anchor(
    d: Seq<Step0View>,
    t: TrackView,
    now: i64,
    window: i64,
    anchor: i64,
) -> bool {
    &&& exists|e: Step0View| #[trigger]
        d.contains(e) && is_usable(e, t, now, window) && e.anchor_ts == anchor
    &&& in_step_order(d) ==> forall|e: Step0View| #[trigger]
        d.contains(e) && is_usable(e, t, now, window) ==> anchor <= e.anchor_ts
}

/// Whether a track went on with an anchor: it is in progress with it, or it has completed
/// a match that began there and ends now.
pub open spec fn went_on(before: StepModel, after: StepModel, i: int, anchor: i64, now: i64) -> bool {
    if after.completions.len() > before.completions.len() {
        &&& after.completions.len() == before.completions.len() + 1
        &&& after.completions.last().anchor_ts == anchor
        &&& after.completions.last().final_ts == now
    } else {
        &&& after.completions == before.completions
        &&& after.tracks[i].anchor_ts == anchor
    }
}

/// An event that does not exclude a track in progress leaves it there with its anchor as
/// long as no more than the window lies between the anchor and the event. After that it
/// goes on from the first remembered step that it can continue from, and is dropped where
/// there is none.
pub proof fn theorem_age(
    setup: StepSetup,
    m: StepModel,
    i: int,
    ev: EventView,
    bindings: BindingValueCache,
)
    requires
        0 <= i < m.tracks.len(),
        !m.tracks[i].done,
        0 < m.tracks[i].current_step < 255,
        !excludes(&setup.nfa, ev, m.tracks[i].current_step as int),
    ensures
        ({
            let t = m.tracks[i];
            let (m1, stays) = visited(setup, m, i, ev, bindings);
            if in_window(&setup.nfa, t.anchor_ts, ev.ts) {
                stays && went_on(m, m1, i, t.anchor_ts, ev.ts)
            } else {
                let w = setup.nfa.global_window->0;
                &&& stays <==> exists|e: Step0View| #[trigger]
                    m.step0.contains(e) && is_usable(e, t, ev.ts, w)
                &&& stays ==> exists|a: i64|
                    is_next_anchor(m.step0, t, ev.ts, w, a) && #[trigger] went_on(
                        m,
                        m1,
                        i,
                        a,
                        ev.ts,
                    )
            }
        }),
{
    let nfa = &setup.nfa;
    let t = m.tracks[i];
    let s = t.current_step as int;
    lemma_excludes(nfa, ev, s);
    let (m1, stays) = visited(setup, m, i, ev, bindings);
    let (m0, valid) = rebound(nfa, m, i, ev.ts);
    if !in_window(nfa, t.anchor_ts, ev.ts) {
        let w = nfa.global_window->0;
        let keep = |x: Step0View| !expired(ev.ts, x.anchor_ts, w);
        let d = step0_unexpired(m.step0, ev.ts, w);
        lemma_rebind_first(d, 0, ev.ts, w, t.last_step_ts, t.scan_from, t.bindings);
        assert forall|e: Step0View| is_usable(e, t, ev.ts, w) && #[trigger] m.step0.contains(
            e,
        ) implies d.contains(e) by {
            lemma_unexpired_kept(m.step0, e, ev.ts, w);
        }
        if valid {
            let a = m0.tracks[i].anchor_ts;
            let k = choose|k: int|
                0 <= k < d.len() && (#[trigger] d[k]).anchor_ts == a && can_rebind(
                    d[k],
                    ev.ts,
                    w,
                    t.last_step_ts,
                    t.scan_from,
                    t.bindings,
                ) && forall|x: int|
                    0 <= x < k ==> !can_rebind(
                        #[trigger] d[x],
                        ev.ts,
                        w,
                        t.last_step_ts,
                        t.scan_from,
                        t.bindings,
                    );
            assert(d.contains(d[k]));
            m.step0.lemma_filter_contains_rev(keep, d[k]);
            assert(m.step0.contains(d[k]) && is_usable(d[k], t, ev.ts, w));
            if in_step_order(m.step0) {
                lemma_filter_sorted(m.step0, keep);
                assert forall|e: Step0View| #[trigger]
                    m.step0.contains(e) && is_usable(e, t, ev.ts, w) implies a <= e.anchor_ts by {
                    let x = choose|x: int| 0 <= x < d.len() && d[x] == e;
                    assert(can_rebind(d[x], ev.ts, w, t.last_step_ts, t.scan_from, t.bindings));
                }
            }
            assert(is_next_anchor(m.step0, t, ev.ts, w, a));
            assert(went_on(m, m1, i, a, ev.ts));
        } else {
            assert forall|e: Step0View| #[trigger]
                m.step0.contains(e) implies !is_usable(e, t, ev.ts, w) by {
                if is_usable(e, t, ev.ts, w) {
                    let x = choose|x: int| 0 <= x < d.len() && d[x] == e;
                    assert(can_rebind(d[x], ev.ts, w, t.last_step_ts, t.scan_from, t.bindings));
                }
            }
        }
    }
}

/// Whether a row has the bound value of a variable.
pub open spec fn has_bound(
    values: BindingValueCache,
    row: int,
    key: Seq<BindingView>,
    v: usize,
) -> bool {
    (v as int) < key.len() && values.value_at(v as int, row) == Some(key[v as int])
}

proof fn lemma_bound_after(
    bound: Seq<Option<BindingView>>,
    vars: Seq<usize>,
    values: BindingValueCache,
    row: int,
    n: int,
)
    requires
        0 <= n <= vars.len(),
        forall|i: int| 0 <= i < vars.len() ==> (#[trigger] vars[i]) < bound.len(),
    ensures
        bound_after(bound, vars, values, row, n).len() == bound.len(),
        forall|i: int|
            0 <= i < n ==> bound_after(bound, vars, values, row, n)[(#[trigger] vars[i]) as int]
                == values.value_at(vars[i] as int, row),
    decreases n,
{
    if n > 0 {
        lemma_bound_after(bound, vars, values, row, n - 1);
        let all = bound_after(bound, vars, values, row, n);
        assert forall|i: int| 0 <= i < n implies all[(#[trigger] vars[i]) as int]
            == values.value_at(vars[i] as int, row) by {
            let _ = vars[n - 1];
        }
    }
}

proof fn lemma_dense(bound: Seq<Option<BindingView>>, n: int)
    requires
        0 <= n <= bound.len(),
        forall|i: int| 0 <= i < n ==> (#[trigger] bound[i]) is Some,
    ensures
        dense(bound, n).len() == n,
        forall|i: int| 0 <= i < n ==> #[trigger] dense(bound, n)[i] == bound[i]->0,
    decreases n,
{
    if n > 0 {
        lemma_dense(bound, n - 1);
        let _ = bound[n - 1];
    }
}

/// An event continues a track if its row has the track's value for every variable that the
/// transition checks, and for every one that it binds again. A first step binds its
/// variables to the values of its row, if none of them is null: where it binds every
/// variable of the pattern, those are the bound values in the order of the variables.
pub proof fn theorem_bound_values(
    nfa: &CompiledNfa,
    tr: Transition,
    key: Seq<BindingView>,
    values: BindingValueCache,
    row: int,
)
    ensures
        advance_agrees(tr, key, values, row) <==> {
            &&& forall|i: int|
                0 <= i < tr.check_variables@.len() ==> has_bound(
                    values,
                    row,
                    key,
                    #[trigger] tr.check_variables@[i],
                )
            &&& forall|i: int|
                0 <= i < tr.bind_variables@.len() && (#[trigger] tr.bind_variables@[i]) < key.len()
                    ==> has_bound(values, row, key, tr.bind_variables@[i])
        },
        ({
            let vars = nfa.states@[0].transitions@[0].bind_variables@;
            let n = nfa.variable_bindings@.len() as int;
            &&& n == 0 ==> step0_key(nfa, values, row) == Some(Seq::<BindingView>::empty())
            &&& n > 0 ==> (step0_key(nfa, values, row) is Some <==> forall|i: int|
                0 <= i < vars.len() ==> values.value_at((#[trigger] vars[i]) as int, row) is Some)
            &&& step0_key(nfa, values, row) is Some && binds_all(vars, n) ==> {
                let k = step0_key(nfa, values, row)->0;
                &&& k.len() == n
                &&& forall|v: int|
                    0 <= v < n ==> values.value_at(v, row) == Some(#[trigger] k[v])
            }
        }),
{
    let vars = nfa.states@[0].transitions@[0].bind_variables@;
    let n = nfa.variable_bindings@.len();
    if n > 0 && step0_key(nfa, values, row) is Some && binds_all(vars, n as int) {
        let unbound = Seq::new(n, |i: int| None::<BindingView>);
        lemma_bound_after(unbound, vars, values, row, vars.len() as int);
        let bound = bound_after(unbound, vars, values, row, vars.len() as int);
        assert forall|v: int| 0 <= v < n implies (#[trigger] bound[v]) is Some && bound[v]
            == values.value_at(v, row) by {
            assert(is_named(vars, v));
            let i = choose|i: int| 0 <= i < vars.len() && #[trigger] vars[i] == v;
            assert(vars[i] == v);
        }
        lemma_dense(bound, n as int);
    }
    if advance_agrees(tr, key, values, row) {
        assert forall|i: int| 0 <= i < tr.check_variables@.len() implies has_bound(
            values,
            row,
            key,
            #[trigger] tr.check_variables@[i],
        ) by {}
    } else {
        if bindings_agree(tr.check_variables@, key, values, row) {
            let i = choose|i: int|
                0 <= i < tr.bind_variables@.len() && (#[trigger] tr.bind_variables@[i]) < key.len()
                    && values.value_at(tr.bind_variables@[i] as int, row) != Some(
                    key[tr.bind_variables@[i] as int],
                );
            assert(!has_bound(values, row, key, tr.bind_variables@[i]));
        }
    }
}

/// Whether a list names every one of `n` variables, and no other.
pub open spec fn binds_all(vars: Seq<usize>, n: int) -> bool {
    &&& forall|i: int| 0 <= i < vars.len() ==> (#[trigger] vars[i]) < n
    &&& forall|v: int| 0 <= v < n ==> #[trigger] is_named(vars, v)
}

/// Whether a list names a variable.
pub open spec fn is_named(vars: Seq<usize>, v: int) -> bool {
    exists|i: int| 0 <= i < vars.len() && #[trigger] vars[i] == v
}

} // verus!
