//! What the simulator promises of every pattern and every history of events.

use vstd::prelude::*;

use super::nfa::{CandidateEntry, CompletionView, EventView, NfaModel, NfaSetup, PartialView,
    PredicateCache, accepted, advances, after_event, after_rows, anchor_position,
    candidate_count, current, drained, eligible, fires, fresh_model, lemma_anchor_position,
    lemma_count_after_pop, lemma_oldest_front, lemma_swept_within, limited, losses, losses_down_to,
    may_start, moved, moves_down_to, oldest_front, outdated, partials_of, poisoned, propagated,
    started, state_moves, survivors, surviving_from, total_count, with_candidate, with_starts};
use super::pattern::{CompiledNfa, TimeRange, may_enter};

verus! {

/// A step of a match: an event takes a transition out of a state.
pub struct PathStep {
    pub event: int,
    pub from: int,
    pub transition: int,
}

/// The state that a step leads to.
pub open spec fn target(nfa: &CompiledNfa, step: PathStep) -> int {
    nfa.states@[step.from].transitions@[step.transition].target as int
}

/// Whether a step is taken by one of the events.
pub open spec fn step_taken(nfa: &CompiledNfa, events: Seq<EventView>, step: PathStep) -> bool {
    &&& 0 <= step.event < events.len()
    &&& 0 <= step.from < nfa.states@.len()
    &&& 0 <= step.transition < nfa.states@[step.from].transitions@.len()
    &&& fires(nfa, events[step.event], step.from, step.transition)
}

/// Whether no event after `from`, up to and with `upto`, kills what waits in a state.
pub open spec fn quiet(nfa: &CompiledNfa, events: Seq<EventView>, s: int, from: int, upto: int) -> bool {
    forall|j: int|
        from < j <= upto && nfa.is_relevant((#[trigger] events[j]).event_type) ==> !poisoned(
            nfa,
            events[j],
            s,
        )
}

/// Whether one step follows on another: it goes on where the other led to, strictly
/// later, and nothing killed the match in between.
pub open spec fn follows(nfa: &CompiledNfa, events: Seq<EventView>, a: PathStep, b: PathStep) -> bool {
    &&& b.from == target(nfa, a)
    &&& a.event < b.event
    &&& events[a.event].ts < events[b.event].ts
    &&& quiet(nfa, events, b.from, a.event, b.event)
}

/// Whether steps lead from the start of a pattern to a state.
pub open spec fn is_path(nfa: &CompiledNfa, events: Seq<EventView>, path: Seq<PathStep>, s: int) -> bool {
    &&& path.len() > 0
    &&& path[0].from == 0
    &&& forall|i: int| 0 <= i < path.len() ==> step_taken(nfa, events, #[trigger] path[i])
    &&& forall|i: int, j: int|
        0 <= i && j == i + 1 && j < path.len() ==> follows(
            nfa,
            events,
            #[trigger] path[i],
            #[trigger] path[j],
        )
    &&& target(nfa, path.last()) == s
}

/// Whether steps are what a candidate stands for: they begin at its anchor, inside the
/// entry range, end at its last step, and lie inside the window.
pub open spec fn stands_for(
    nfa: &CompiledNfa,
    range: Option<TimeRange>,
    events: Seq<EventView>,
    path: Seq<PathStep>,
    s: int,
    c: CandidateEntry,
) -> bool {
    &&& is_path(nfa, events, path, s)
    &&& events[path[0].event].ts == c.anchor_ts
    &&& events[path.last().event].ts == c.last_step_ts
    &&& may_enter(range, c.anchor_ts)
    &&& nfa.global_window matches Some(w) ==> path.len() > 1 ==> c.last_step_ts - c.anchor_ts <= w
}

/// Whether there are events that make up a candidate of a state.
pub open spec fn witnessed(
    nfa: &CompiledNfa,
    range: Option<TimeRange>,
    events: Seq<EventView>,
    s: int,
    c: CandidateEntry,
) -> bool {
    exists|path: Seq<PathStep>| #[trigger] stands_for(nfa, range, events, path, s, c)
}

/// Whether steps are what a candidate stands for, and nothing has killed it since.
pub open spec fn keeps(
    nfa: &CompiledNfa,
    range: Option<TimeRange>,
    events: Seq<EventView>,
    path: Seq<PathStep>,
    s: int,
    c: CandidateEntry,
) -> bool {
    &&& stands_for(nfa, range, events, path, s, c)
    &&& s != nfa.accept_state as int ==> quiet(
        nfa,
        events,
        s,
        path.last().event,
        events.len() - 1,
    )
}

/// Whether there are events that make up a candidate, and nothing has killed it since.
pub open spec fn live(
    nfa: &CompiledNfa,
    range: Option<TimeRange>,
    events: Seq<EventView>,
    s: int,
    c: CandidateEntry,
) -> bool {
    exists|path: Seq<PathStep>| #[trigger] keeps(nfa, range, events, path, s, c)
}

/// Whether every candidate of a state is live.
pub open spec fn deque_live(
    nfa: &CompiledNfa,
    range: Option<TimeRange>,
    events: Seq<EventView>,
    s: int,
    d: Seq<CandidateEntry>,
) -> bool {
    forall|i: int| 0 <= i < d.len() ==> live(nfa, range, events, s, #[trigger] d[i])
}

/// Whether every candidate is live.
pub open spec fn deques_live(
    nfa: &CompiledNfa,
    range: Option<TimeRange>,
    events: Seq<EventView>,
    deques: Seq<Seq<CandidateEntry>>,
) -> bool {
    forall|s: int| 0 <= s < deques.len() ==> deque_live(nfa, range, events, s, #[trigger] deques[s])
}

/// The candidate that a completed match was.
pub open spec fn as_candidate(m: CompletionView) -> CandidateEntry {
    CandidateEntry { anchor_ts: m.anchor_ts, last_step_ts: m.final_ts }
}

/// Whether events make up a completed match.
pub open spec fn complete(
    nfa: &CompiledNfa,
    range: Option<TimeRange>,
    events: Seq<EventView>,
    m: CompletionView,
) -> bool {
    witnessed(nfa, range, events, nfa.accept_state as int, as_candidate(m))
}

/// Whether a candidate of a state is what an unfinished match reports.
pub open spec fn reports_state(
    nfa: &CompiledNfa,
    range: Option<TimeRange>,
    events: Seq<EventView>,
    p: PartialView,
    s: int,
    c: CandidateEntry,
) -> bool {
    &&& 0 <= s < nfa.states@.len()
    &&& c.anchor_ts == p.anchor_ts
    &&& nfa.state_to_step@[s] == p.step_reached
    &&& witnessed(nfa, range, events, s, c)
}

/// Whether events make up an unfinished match that reached the step it reports.
pub open spec fn reached(
    nfa: &CompiledNfa,
    range: Option<TimeRange>,
    events: Seq<EventView>,
    p: PartialView,
) -> bool {
    exists|s: int, c: CandidateEntry| #[trigger] reports_state(nfa, range, events, p, s, c)
}

/// Whether everything that the simulator knows is made up by events.
pub open spec fn sound(setup: NfaSetup, events: Seq<EventView>, m: NfaModel) -> bool {
    &&& m.deques.len() == setup.nfa.states@.len()
    &&& deques_live(&setup.nfa, setup.entry_range, events, m.deques)
    &&& forall|i: int|
        0 <= i < m.completions.len() ==> complete(
            &setup.nfa,
            setup.entry_range,
            events,
            #[trigger] m.completions[i],
        )
    &&& forall|i: int|
        0 <= i < m.partials.len() ==> reached(
            &setup.nfa,
            setup.entry_range,
            events,
            #[trigger] m.partials[i],
        )
}

/// The state after a history of events.
pub open spec fn after_events(setup: NfaSetup, m: NfaModel, events: Seq<EventView>) -> NfaModel
    decreases events.len(),
{
    if events.len() == 0 {
        m
    } else {
        after_event(setup, after_events(setup, m, events.drop_last()), events.last())
    }
}

/// A path stays one when more is seen.
proof fn lemma_path_grows(
    nfa: &CompiledNfa,
    range: Option<TimeRange>,
    events: Seq<EventView>,
    ev: EventView,
    path: Seq<PathStep>,
    s: int,
    c: CandidateEntry,
)
    requires
        stands_for(nfa, range, events, path, s, c),
    ensures
        stands_for(nfa, range, events.push(ev), path, s, c),
{
    let all = events.push(ev);
    assert forall|i: int| 0 <= i < path.len() implies step_taken(nfa, all, #[trigger] path[i]) by {
        assert(step_taken(nfa, events, path[i]));
        assert(all[path[i].event] == events[path[i].event]);
    }
    assert forall|i: int, j: int| 0 <= i && j == i + 1 && j < path.len() implies follows(
        nfa,
        all,
        #[trigger] path[i],
        #[trigger] path[j],
    ) by {
        let (a, b) = (path[i], path[j]);
        assert(follows(nfa, events, a, b));
        assert(step_taken(nfa, events, a) && step_taken(nfa, events, b));
        assert forall|k: int|
            a.event < k <= b.event && nfa.is_relevant((#[trigger] all[k]).event_type) implies !poisoned(
            nfa,
            all[k],
            b.from,
        ) by {
            assert(all[k] == events[k]);
        }
    }
    assert(step_taken(nfa, events, path[0]));
    assert(step_taken(nfa, events, path.last()));
}

pub proof fn lemma_witness_grows(
    nfa: &CompiledNfa,
    range: Option<TimeRange>,
    events: Seq<EventView>,
    ev: EventView,
    s: int,
    c: CandidateEntry,
)
    requires
        witnessed(nfa, range, events, s, c),
    ensures
        witnessed(nfa, range, events.push(ev), s, c),
{
    let path = choose|path: Seq<PathStep>| #[trigger] stands_for(nfa, range, events, path, s, c);
    lemma_path_grows(nfa, range, events, ev, path, s, c);
}

/// A live candidate is witnessed.
pub proof fn lemma_live_witnessed(
    nfa: &CompiledNfa,
    range: Option<TimeRange>,
    events: Seq<EventView>,
    s: int,
    c: CandidateEntry,
)
    requires
        live(nfa, range, events, s, c),
    ensures
        witnessed(nfa, range, events, s, c),
{
    let path = choose|path: Seq<PathStep>| #[trigger] keeps(nfa, range, events, path, s, c);
    assert(stands_for(nfa, range, events, path, s, c));
}

/// A live candidate that the event does not kill stays live.
pub proof fn lemma_live_grows(
    nfa: &CompiledNfa,
    range: Option<TimeRange>,
    events: Seq<EventView>,
    ev: EventView,
    s: int,
    c: CandidateEntry,
)
    requires
        live(nfa, range, events, s, c),
        s == nfa.accept_state as int || !nfa.is_relevant(ev.event_type) || !poisoned(nfa, ev, s),
    ensures
        live(nfa, range, events.push(ev), s, c),
{
    let all = events.push(ev);
    let path = choose|path: Seq<PathStep>| #[trigger] keeps(nfa, range, events, path, s, c);
    lemma_path_grows(nfa, range, events, ev, path, s, c);
    if s != nfa.accept_state as int {
        assert forall|j: int|
            path.last().event < j <= all.len() - 1 && nfa.is_relevant(
                (#[trigger] all[j]).event_type,
            ) implies !poisoned(nfa, all[j], s) by {
            if j < events.len() {
                assert(all[j] == events[j]);
            }
        }
    }
    assert(keeps(nfa, range, all, path, s, c));
}

/// A live candidate that advances is live in the state that it gets to.
pub proof fn lemma_advance_live(
    nfa: &CompiledNfa,
    range: Option<TimeRange>,
    events: Seq<EventView>,
    ev: EventView,
    s: int,
    t: int,
    c: CandidateEntry,
)
    requires
        live(nfa, range, events, s, c),
        s != nfa.accept_state as int,
        !poisoned(nfa, ev, s),
        0 <= s < nfa.states@.len(),
        0 <= t < nfa.states@[s].transitions@.len(),
        fires(nfa, ev, s, t),
        eligible(nfa, ev.ts, c),
    ensures
        live(
            nfa,
            range,
            events.push(ev),
            nfa.states@[s].transitions@[t].target as int,
            CandidateEntry { anchor_ts: c.anchor_ts, last_step_ts: ev.ts },
        ),
{
    let all = events.push(ev);
    let path = choose|path: Seq<PathStep>| #[trigger] keeps(nfa, range, events, path, s, c);
    lemma_path_grows(nfa, range, events, ev, path, s, c);
    let step = PathStep { event: events.len() as int, from: s, transition: t };
    let longer = path.push(step);
    let next = CandidateEntry { anchor_ts: c.anchor_ts, last_step_ts: ev.ts };
    let end = nfa.states@[s].transitions@[t].target as int;
    assert(step_taken(nfa, events, path.last()));
    assert(all[path.last().event] == events[path.last().event]);
    assert(follows(nfa, all, path.last(), step)) by {
        assert forall|j: int|
            path.last().event < j <= step.event && nfa.is_relevant(
                (#[trigger] all[j]).event_type,
            ) implies !poisoned(nfa, all[j], s) by {
            if j < events.len() {
                assert(all[j] == events[j]);
            }
        }
    }
    assert forall|i: int| 0 <= i < longer.len() implies step_taken(nfa, all, #[trigger] longer[i]) by {
        if i < path.len() {
            assert(longer[i] == path[i]);
        }
    }
    assert forall|i: int, j: int| 0 <= i && j == i + 1 && j < longer.len() implies follows(
        nfa,
        all,
        #[trigger] longer[i],
        #[trigger] longer[j],
    ) by {
        assert(longer[i] == path[i]);
        if j < path.len() {
            assert(longer[j] == path[j]);
        } else {
            assert(path[i] == path.last());
        }
    }
    assert(longer[0] == path[0]);
    assert(is_path(nfa, all, longer, end));
    assert(stands_for(nfa, range, all, longer, end, next));
    assert(keeps(nfa, range, all, longer, end, next));
}

/// A candidate that starts is live.
pub proof fn lemma_start_live(
    nfa: &CompiledNfa,
    range: Option<TimeRange>,
    events: Seq<EventView>,
    ev: EventView,
    t: int,
)
    requires
        nfa.states@.len() > 0,
        0 <= t < nfa.states@[0].transitions@.len(),
        fires(nfa, ev, 0, t),
        may_enter(range, ev.ts),
    ensures
        live(
            nfa,
            range,
            events.push(ev),
            nfa.states@[0].transitions@[t].target as int,
            CandidateEntry { anchor_ts: ev.ts, last_step_ts: ev.ts },
        ),
{
    let all = events.push(ev);
    let step = PathStep { event: events.len() as int, from: 0, transition: t };
    let path = seq![step];
    let c = CandidateEntry { anchor_ts: ev.ts, last_step_ts: ev.ts };
    let end = nfa.states@[0].transitions@[t].target as int;
    assert(all[step.event] == ev);
    assert(step_taken(nfa, all, path[0]));
    assert(path.last() == step);
    assert(is_path(nfa, all, path, end));
    assert(stands_for(nfa, range, all, path, end, c));
    assert(keeps(nfa, range, all, path, end, c));
}

/// Of two candidates with one anchor, the one that is kept is one of the two.
proof fn lemma_with_candidate_live(
    nfa: &CompiledNfa,
    range: Option<TimeRange>,
    events: Seq<EventView>,
    s: int,
    d: Seq<CandidateEntry>,
    c: CandidateEntry,
)
    requires
        deque_live(nfa, range, events, s, d),
        live(nfa, range, events, s, c),
    ensures
        deque_live(nfa, range, events, s, with_candidate(d, c)),
{
    let r = with_candidate(d, c);
    let k = anchor_position(d, c.anchor_ts);
    lemma_anchor_position(d, c.anchor_ts);
    assert forall|i: int| 0 <= i < r.len() implies live(nfa, range, events, s, #[trigger] r[i]) by {
        if k >= 0 {
            if i == k {
                assert(live(nfa, range, events, s, d[k]));
                assert(r[i] == d[k] || r[i] == c);
            } else {
                assert(r[i] == d[i]);
            }
        } else if i < d.len() {
            assert(r[i] == d[i]);
        }
    }
}

/// Every advance leads to a live candidate.
spec fn moves_live(
    nfa: &CompiledNfa,
    range: Option<TimeRange>,
    events: Seq<EventView>,
    moves: Seq<(u16, CandidateEntry)>,
) -> bool {
    forall|k: int|
        0 <= k < moves.len() ==> (#[trigger] moves[k]).0 < nfa.states@.len() && live(
            nfa,
            range,
            events,
            moves[k].0 as int,
            moves[k].1,
        )
}

proof fn lemma_advances_live(
    nfa: &CompiledNfa,
    range: Option<TimeRange>,
    events: Seq<EventView>,
    ev: EventView,
    s: int,
    t: int,
    d: Seq<CandidateEntry>,
    n: int,
)
    requires
        nfa.wf(),
        deque_live(nfa, range, events, s, d),
        s != nfa.accept_state as int,
        !poisoned(nfa, ev, s),
        0 <= s < nfa.states@.len(),
        0 <= t < nfa.states@[s].transitions@.len(),
        fires(nfa, ev, s, t),
        0 <= n <= d.len(),
    ensures
        moves_live(
            nfa,
            range,
            events.push(ev),
            advances(nfa, ev.ts, d, nfa.states@[s].transitions@[t].target, n),
        ),
    decreases n,
{
    if n > 0 {
        lemma_advances_live(nfa, range, events, ev, s, t, d, n - 1);
        let _ = d[n - 1];
        if eligible(nfa, ev.ts, d[n - 1]) {
            lemma_advance_live(nfa, range, events, ev, s, t, d[n - 1]);
        }
    }
}

proof fn lemma_state_moves_live(
    nfa: &CompiledNfa,
    range: Option<TimeRange>,
    events: Seq<EventView>,
    ev: EventView,
    s: int,
    d: Seq<CandidateEntry>,
    k: int,
)
    requires
        nfa.wf(),
        deque_live(nfa, range, events, s, d),
        s != nfa.accept_state as int,
        d.len() > 0 ==> !poisoned(nfa, ev, s),
        0 <= s < nfa.states@.len(),
        0 <= k <= nfa.states@[s].transitions@.len(),
    ensures
        moves_live(nfa, range, events.push(ev), state_moves(nfa, ev, s, d, k)),
    decreases k,
{
    if k > 0 {
        lemma_state_moves_live(nfa, range, events, ev, s, d, k - 1);
        let before = state_moves(nfa, ev, s, d, k - 1);
        if fires(nfa, ev, s, k - 1) {
            let target = nfa.states@[s].transitions@[k - 1].target;
            let added = advances(nfa, ev.ts, d, target, d.len() as int);
            if d.len() > 0 {
                lemma_advances_live(nfa, range, events, ev, s, k - 1, d, d.len() as int);
            }
            let all = before + added;
            assert forall|i: int| 0 <= i < all.len() implies (#[trigger] all[i]).0
                < nfa.states@.len() && live(
                nfa,
                range,
                events.push(ev),
                all[i].0 as int,
                all[i].1,
            ) by {
                if i < before.len() {
                    assert(all[i] == before[i]);
                } else {
                    assert(all[i] == added[i - before.len()]);
                }
            }
        }
    }
}

proof fn lemma_survivors_live(
    nfa: &CompiledNfa,
    range: Option<TimeRange>,
    events: Seq<EventView>,
    ev: EventView,
    s: int,
    d: Seq<CandidateEntry>,
)
    requires
        deque_live(nfa, range, events, s, d),
    ensures
        deque_live(nfa, range, events, s, survivors(nfa, ev, s, d)),
        survivors(nfa, ev, s, d).len() > 0 ==> !poisoned(nfa, ev, s),
{
    lemma_swept_within(nfa, ev, d);
    let r = survivors(nfa, ev, s, d);
    assert forall|i: int| 0 <= i < r.len() implies live(nfa, range, events, s, #[trigger] r[i]) by {
        assert(d.contains(current(nfa, ev, d)[i]));
    }
}

proof fn lemma_moves_live(
    nfa: &CompiledNfa,
    range: Option<TimeRange>,
    events: Seq<EventView>,
    ev: EventView,
    deques: Seq<Seq<CandidateEntry>>,
    lo: int,
)
    requires
        nfa.wf(),
        deques.len() == nfa.states@.len(),
        deques_live(nfa, range, events, deques),
        0 <= lo <= deques.len(),
    ensures
        moves_live(nfa, range, events.push(ev), moves_down_to(nfa, ev, deques, lo)),
    decreases deques.len() - lo,
{
    if lo < deques.len() {
        lemma_moves_live(nfa, range, events, ev, deques, lo + 1);
        if lo != nfa.accept_state as int {
            let d = survivors(nfa, ev, lo, deques[lo]);
            let k = nfa.states@[lo].transitions@.len() as int;
            lemma_survivors_live(nfa, range, events, ev, lo, deques[lo]);
            lemma_state_moves_live(nfa, range, events, ev, lo, d, k);
            let before = moves_down_to(nfa, ev, deques, lo + 1);
            let added = state_moves(nfa, ev, lo, d, k);
            let all = before + added;
            assert forall|i: int| 0 <= i < all.len() implies (#[trigger] all[i]).0
                < nfa.states@.len() && live(
                nfa,
                range,
                events.push(ev),
                all[i].0 as int,
                all[i].1,
            ) by {
                if i < before.len() {
                    assert(all[i] == before[i]);
                } else {
                    assert(all[i] == added[i - before.len()]);
                }
            }
        }
    }
}

proof fn lemma_moved_live(
    nfa: &CompiledNfa,
    range: Option<TimeRange>,
    events: Seq<EventView>,
    deques: Seq<Seq<CandidateEntry>>,
    moves: Seq<(u16, CandidateEntry)>,
)
    requires
        deques.len() == nfa.states@.len(),
        deques_live(nfa, range, events, deques),
        moves_live(nfa, range, events, moves),
    ensures
        moved(deques, moves).len() == deques.len(),
        deques_live(nfa, range, events, moved(deques, moves)),
    decreases moves.len(),
{
    if moves.len() > 0 {
        let rest = moves.drop_last();
        assert forall|k: int| 0 <= k < rest.len() implies (#[trigger] rest[k]).0
            < nfa.states@.len() && live(nfa, range, events, rest[k].0 as int, rest[k].1) by {
            assert(rest[k] == moves[k]);
        }
        lemma_moved_live(nfa, range, events, deques, rest);
        let before = moved(deques, rest);
        let (to, c) = moves.last();
        assert(moves[moves.len() - 1] == (to, c));
        let _ = before[to as int];
        lemma_with_candidate_live(nfa, range, events, to as int, before[to as int], c);
    }
}

proof fn lemma_started_live(
    nfa: &CompiledNfa,
    range: Option<TimeRange>,
    events: Seq<EventView>,
    ev: EventView,
    deques: Seq<Seq<CandidateEntry>>,
    k: int,
)
    requires
        nfa.wf(),
        deques.len() == nfa.states@.len(),
        deques_live(nfa, range, events.push(ev), deques),
        may_enter(range, ev.ts),
        0 <= k <= nfa.states@[0].transitions@.len(),
    ensures
        started(nfa, ev, deques, k).len() == deques.len(),
        deques_live(nfa, range, events.push(ev), started(nfa, ev, deques, k)),
    decreases k,
{
    if k > 0 {
        lemma_started_live(nfa, range, events, ev, deques, k - 1);
        if fires(nfa, ev, 0, k - 1) {
            let before = started(nfa, ev, deques, k - 1);
            let to = nfa.states@[0].transitions@[k - 1].target as int;
            lemma_start_live(nfa, range, events, ev, k - 1);
            let _ = before[to];
            lemma_with_candidate_live(
                nfa,
                range,
                events.push(ev),
                to,
                before[to],
                CandidateEntry { anchor_ts: ev.ts, last_step_ts: ev.ts },
            );
        }
    }
}

proof fn lemma_limited_live(
    nfa: &CompiledNfa,
    range: Option<TimeRange>,
    events: Seq<EventView>,
    deques: Seq<Seq<CandidateEntry>>,
    dropped: u64,
    limit: nat,
)
    requires
        deques_live(nfa, range, events, deques),
    ensures
        limited(deques, dropped, limit).0.len() == deques.len(),
        deques_live(nfa, range, events, limited(deques, dropped, limit).0),
    decreases total_count(deques),
{
    lemma_oldest_front(deques, deques.len() as int);
    if let Some(i) = oldest_front(deques, deques.len() as int) {
        if total_count(deques) > limit {
            lemma_count_after_pop(deques, i, deques.len() as int);
            let rest = deques.update(i, deques[i].drop_first());
            assert forall|s: int| 0 <= s < rest.len() implies deque_live(
                nfa,
                range,
                events,
                s,
                #[trigger] rest[s],
            ) by {
                let _ = deques[s];
                assert forall|j: int| 0 <= j < rest[s].len() implies live(
                    nfa,
                    range,
                    events,
                    s,
                    #[trigger] rest[s][j],
                ) by {
                    if s == i {
                        assert(rest[s][j] == deques[s][j + 1]);
                    } else {
                        assert(rest[s][j] == deques[s][j]);
                    }
                }
            }
            lemma_limited_live(
                nfa,
                range,
                events,
                rest,
                super::nfa::one_more(dropped),
                limit,
            );
        }
    }
}

/// Every one of a list of unfinished matches is made up by events.
spec fn all_reached(
    nfa: &CompiledNfa,
    range: Option<TimeRange>,
    events: Seq<EventView>,
    list: Seq<PartialView>,
) -> bool {
    forall|i: int| 0 <= i < list.len() ==> reached(nfa, range, events, #[trigger] list[i])
}

proof fn lemma_reached_joined(
    nfa: &CompiledNfa,
    range: Option<TimeRange>,
    events: Seq<EventView>,
    a: Seq<PartialView>,
    b: Seq<PartialView>,
)
    requires
        all_reached(nfa, range, events, a),
        all_reached(nfa, range, events, b),
    ensures
        all_reached(nfa, range, events, a + b),
{
    let all = a + b;
    assert forall|i: int| 0 <= i < all.len() implies reached(nfa, range, events, #[trigger] all[i]) by {
        if i < a.len() {
            assert(all[i] == a[i]);
        } else {
            assert(all[i] == b[i - a.len()]);
        }
    }
}

/// Candidates that are reported as unfinished matches have reached their step.
proof fn lemma_partials_reached(
    nfa: &CompiledNfa,
    range: Option<TimeRange>,
    events: Seq<EventView>,
    s: int,
    d: Seq<CandidateEntry>,
)
    requires
        0 <= s < nfa.states@.len(),
        deque_live(nfa, range, events, s, d),
    ensures
        all_reached(nfa, range, events, partials_of(d, nfa.state_to_step@[s])),
{
    let list = partials_of(d, nfa.state_to_step@[s]);
    assert forall|i: int| 0 <= i < list.len() implies reached(
        nfa,
        range,
        events,
        #[trigger] list[i],
    ) by {
        assert(live(nfa, range, events, s, d[i]));
        lemma_live_witnessed(nfa, range, events, s, d[i]);
        assert(reports_state(nfa, range, events, list[i], s, d[i]));
    }
}

proof fn lemma_drained_reached(
    nfa: &CompiledNfa,
    range: Option<TimeRange>,
    events: Seq<EventView>,
    deques: Seq<Seq<CandidateEntry>>,
    n: int,
)
    requires
        deques.len() == nfa.states@.len(),
        deques_live(nfa, range, events, deques),
        0 <= n <= deques.len(),
    ensures
        all_reached(nfa, range, events, drained(deques, nfa.state_to_step@, n)),
    decreases n,
{
    if n > 0 {
        lemma_drained_reached(nfa, range, events, deques, n - 1);
        let _ = deques[n - 1];
        lemma_partials_reached(nfa, range, events, n - 1, deques[n - 1]);
        lemma_reached_joined(
            nfa,
            range,
            events,
            drained(deques, nfa.state_to_step@, n - 1),
            partials_of(deques[n - 1], nfa.state_to_step@[n - 1]),
        );
    }
}

proof fn lemma_losses_reached(
    nfa: &CompiledNfa,
    range: Option<TimeRange>,
    events: Seq<EventView>,
    ev: EventView,
    deques: Seq<Seq<CandidateEntry>>,
    lo: int,
)
    requires
        deques.len() == nfa.states@.len(),
        deques_live(nfa, range, events, deques),
        0 <= lo <= deques.len(),
    ensures
        all_reached(nfa, range, events, losses_down_to(nfa, ev, deques, lo)),
    decreases deques.len() - lo,
{
    if lo < deques.len() {
        lemma_losses_reached(nfa, range, events, ev, deques, lo + 1);
        if lo != nfa.accept_state as int {
            let d = deques[lo];
            let gone = outdated(nfa, ev, d);
            let left = current(nfa, ev, d);
            let step = nfa.state_to_step@[lo];
            lemma_swept_within(nfa, ev, d);
            assert forall|i: int| 0 <= i < gone.len() implies live(
                nfa,
                range,
                events,
                lo,
                #[trigger] gone[i],
            ) by {
                assert(d.contains(outdated(nfa, ev, d)[i]));
            }
            assert forall|i: int| 0 <= i < left.len() implies live(
                nfa,
                range,
                events,
                lo,
                #[trigger] left[i],
            ) by {
                assert(d.contains(current(nfa, ev, d)[i]));
            }
            lemma_partials_reached(nfa, range, events, lo, gone);
            lemma_partials_reached(nfa, range, events, lo, left);
            lemma_reached_joined(
                nfa,
                range,
                events,
                partials_of(gone, step),
                partials_of(left, step),
            );
            lemma_reached_joined(
                nfa,
                range,
                events,
                losses_down_to(nfa, ev, deques, lo + 1),
                losses(nfa, ev, lo, d),
            );
        }
    }
}

proof fn lemma_reached_grows(
    nfa: &CompiledNfa,
    range: Option<TimeRange>,
    events: Seq<EventView>,
    ev: EventView,
    list: Seq<PartialView>,
)
    requires
        all_reached(nfa, range, events, list),
    ensures
        all_reached(nfa, range, events.push(ev), list),
{
    assert forall|i: int| 0 <= i < list.len() implies reached(
        nfa,
        range,
        events.push(ev),
        #[trigger] list[i],
    ) by {
        assert(reached(nfa, range, events, list[i]));
        let (s, c) = choose|s: int, c: CandidateEntry| #[trigger]
            reports_state(nfa, range, events, list[i], s, c);
        lemma_witness_grows(nfa, range, events, ev, s, c);
        assert(reports_state(nfa, range, events.push(ev), list[i], s, c));
    }
}

/// What is known after an event is made up by the events up to and with it.
proof fn lemma_sound_step(setup: NfaSetup, events: Seq<EventView>, m: NfaModel, ev: EventView)
    requires
        setup.nfa.wf(),
        sound(setup, events, m),
    ensures
        sound(setup, events.push(ev), after_event(setup, m, ev)),
{
    let nfa = &setup.nfa;
    let range = setup.entry_range;
    let all = events.push(ev);
    assert forall|i: int| 0 <= i < m.completions.len() implies complete(
        nfa,
        range,
        all,
        #[trigger] m.completions[i],
    ) by {
        assert(complete(nfa, range, events, m.completions[i]));
        lemma_witness_grows(
            nfa,
            range,
            events,
            ev,
            nfa.accept_state as int,
            as_candidate(m.completions[i]),
        );
    }
    assert(all_reached(nfa, range, events, m.partials));
    lemma_reached_grows(nfa, range, events, ev, m.partials);
    if !nfa.is_relevant(ev.event_type) {
        assert forall|s: int| 0 <= s < m.deques.len() implies deque_live(
            nfa,
            range,
            all,
            s,
            #[trigger] m.deques[s],
        ) by {
            assert forall|i: int| 0 <= i < m.deques[s].len() implies live(
                nfa,
                range,
                all,
                s,
                #[trigger] m.deques[s][i],
            ) by {
                lemma_live_grows(nfa, range, events, ev, s, m.deques[s][i]);
            }
        }
    } else {
        let survived = surviving_from(nfa, ev, m.deques, 0);
        assert forall|s: int| 0 <= s < survived.len() implies deque_live(
            nfa,
            range,
            all,
            s,
            #[trigger] survived[s],
        ) by {
            let d = m.deques[s];
            assert(deque_live(nfa, range, events, s, d));
            lemma_survivors_live(nfa, range, events, ev, s, d);
            assert forall|i: int| 0 <= i < survived[s].len() implies live(
                nfa,
                range,
                all,
                s,
                #[trigger] survived[s][i],
            ) by {
                lemma_live_grows(nfa, range, events, ev, s, survived[s][i]);
            }
        }
        let moves = moves_down_to(nfa, ev, m.deques, 0);
        lemma_moves_live(nfa, range, events, ev, m.deques, 0);
        lemma_moved_live(nfa, range, all, survived, moves);
        lemma_losses_reached(nfa, range, events, ev, m.deques, 0);
        lemma_reached_grows(nfa, range, events, ev, losses_down_to(nfa, ev, m.deques, 0));
        lemma_reached_joined(
            nfa,
            range,
            all,
            m.partials,
            losses_down_to(nfa, ev, m.deques, 0),
        );
        let first = propagated(nfa, ev, m);
        let second = with_starts(nfa, range, ev, first);
        if may_start(range, first.scan_from, ev.ts) {
            lemma_started_live(
                nfa,
                range,
                events,
                ev,
                first.deques,
                nfa.states@[0].transitions@.len() as int,
            );
        }
        lemma_accepted_sound(setup, all, second);
        let third = accepted(nfa, setup.match_all, second);
        lemma_limited_live(nfa, range, all, third.deques, third.dropped_count, setup.limit);
    }
}

/// Accepting a match keeps everything made up by events.
proof fn lemma_accepted_sound(setup: NfaSetup, events: Seq<EventView>, m: NfaModel)
    requires
        setup.nfa.wf(),
        sound(setup, events, m),
    ensures
        sound(setup, events, accepted(&setup.nfa, setup.match_all, m)),
{
    let nfa = &setup.nfa;
    let range = setup.entry_range;
    let a = nfa.accept_state as int;
    let _ = m.deques[a];
    if m.deques[a].len() > 0 {
        let c = m.deques[a][0];
        assert(live(nfa, range, events, a, c));
        lemma_live_witnessed(nfa, range, events, a, c);
        let r = accepted(nfa, setup.match_all, m);
        let view = CompletionView {
            anchor_ts: c.anchor_ts,
            final_ts: c.last_step_ts,
            bindings: Seq::empty(),
        };
        assert(as_candidate(view) == c);
        assert(r.completions == m.completions.push(view));
        assert forall|i: int| 0 <= i < r.completions.len() implies complete(
            nfa,
            range,
            events,
            #[trigger] r.completions[i],
        ) by {
            if i < m.completions.len() {
                assert(r.completions[i] == m.completions[i]);
            }
        }
        let left = m.deques.update(a, m.deques[a].drop_first());
        assert forall|s: int| 0 <= s < left.len() implies deque_live(
            nfa,
            range,
            events,
            s,
            #[trigger] left[s],
        ) by {
            let _ = m.deques[s];
            assert forall|j: int| 0 <= j < left[s].len() implies live(
                nfa,
                range,
                events,
                s,
                #[trigger] left[s][j],
            ) by {
                if s == a {
                    assert(left[s][j] == m.deques[s][j + 1]);
                }
            }
        }
        lemma_drained_reached(nfa, range, events, left, left.len() as int);
        assert(all_reached(nfa, range, events, m.partials));
        lemma_reached_joined(
            nfa,
            range,
            events,
            m.partials,
            drained(left, nfa.state_to_step@, left.len() as int),
        );
        assert(all_reached(nfa, range, events, r.partials));
    }
}

/// Every match that the simulator reports, and every candidate that it keeps, is made
/// up by events of the history: they lead from the start of the pattern to the state
/// in question, each strictly later than the one before, inside the window and the
/// entry range, with no event in between that excludes it.
pub proof fn theorem_sound(setup: NfaSetup, events: Seq<EventView>)
    requires
        setup.nfa.wf(),
    ensures
        sound(
            setup,
            events,
            after_events(setup, fresh_model(setup.nfa.states@.len()), events),
        ),
    decreases events.len(),
{
    let fresh = fresh_model(setup.nfa.states@.len());
    if events.len() > 0 {
        let before = events.drop_last();
        theorem_sound(setup, before);
        lemma_sound_step(
            setup,
            before,
            after_events(setup, fresh, before),
            events.last(),
        );
        assert(before.push(events.last()) =~= events);
    }
}

/// The events that are processed out of the rows of a batch, from `row` on.
pub open spec fn row_events(
    setup: NfaSetup,
    m: NfaModel,
    types: Seq<Option<Seq<char>>>,
    stamps: Seq<i64>,
    cache: PredicateCache,
    row: int,
) -> Seq<EventView>
    decreases stamps.len() - row,
{
    if row >= stamps.len() || (!setup.match_all && m.completions.len() > 0) {
        Seq::empty()
    } else {
        match types[row] {
            Some(event_type) => {
                let ev = EventView { event_type, ts: stamps[row], row, cache };
                seq![ev] + row_events(
                    setup,
                    after_event(setup, m, ev),
                    types,
                    stamps,
                    cache,
                    row + 1,
                )
            },
            None => row_events(setup, m, types, stamps, cache, row + 1),
        }
    }
}

/// A history may be cut anywhere: what is known after it does not depend on how it
/// was handed over.
pub proof fn theorem_history_split(setup: NfaSetup, m: NfaModel, a: Seq<EventView>, b: Seq<EventView>)
    ensures
        after_events(setup, m, a + b) == after_events(setup, after_events(setup, m, a), b),
    decreases b.len(),
{
    if b.len() == 0 {
        assert(a + b =~= a);
    } else {
        theorem_history_split(setup, m, a, b.drop_last());
        assert((a + b).drop_last() =~= a + b.drop_last());
        assert((a + b).last() == b.last());
    }
}

/// Processing the rows of a batch is processing their events one after another.
pub proof fn theorem_rows_are_events(
    setup: NfaSetup,
    m: NfaModel,
    types: Seq<Option<Seq<char>>>,
    stamps: Seq<i64>,
    cache: PredicateCache,
    row: int,
)
    ensures
        after_rows(setup, m, types, stamps, cache, row) == after_events(
            setup,
            m,
            row_events(setup, m, types, stamps, cache, row),
        ),
    decreases stamps.len() - row,
{
    if row >= stamps.len() || (!setup.match_all && m.completions.len() > 0) {
    } else {
        match types[row] {
            Some(event_type) => {
                let ev = EventView { event_type, ts: stamps[row], row, cache };
                let next = after_event(setup, m, ev);
                theorem_rows_are_events(setup, next, types, stamps, cache, row + 1);
                let rest = row_events(setup, next, types, stamps, cache, row + 1);
                theorem_history_split(setup, m, seq![ev], rest);
                assert(seq![ev].drop_last() =~= Seq::empty());
                assert(after_events(setup, m, seq![ev].drop_last()) == m);
                assert(after_events(setup, m, seq![ev]) == next);
            },
            None => {
                theorem_rows_are_events(setup, m, types, stamps, cache, row + 1);
            },
        }
    }
}

/// An event completes at most one match.
pub proof fn theorem_one_match_per_event(setup: NfaSetup, m: NfaModel, ev: EventView)
    ensures
        m.completions.is_prefix_of(after_event(setup, m, ev).completions),
        after_event(setup, m, ev).completions.len() <= m.completions.len() + 1,
{
}

/// A simulator that stops at the first match reports one at most.
pub proof fn theorem_first_match_only(
    setup: NfaSetup,
    m: NfaModel,
    types: Seq<Option<Seq<char>>>,
    stamps: Seq<i64>,
    cache: PredicateCache,
    row: int,
)
    requires
        !setup.match_all,
        m.completions.len() <= 1,
    ensures
        after_rows(setup, m, types, stamps, cache, row).completions.len() <= 1,
    decreases stamps.len() - row,
{
    if row < stamps.len() && m.completions.len() == 0 {
        let next = match types[row] {
            Some(event_type) => after_event(
                setup,
                m,
                EventView { event_type, ts: stamps[row], row, cache },
            ),
            None => m,
        };
        theorem_first_match_only(setup, next, types, stamps, cache, row + 1);
    }
}

/// Whether every candidate has a property in its state.
spec fn all_have(
    deques: Seq<Seq<CandidateEntry>>,
    p: spec_fn(int, CandidateEntry) -> bool,
) -> bool {
    forall|s: int, i: int|
        0 <= s < deques.len() && 0 <= i < deques[s].len() ==> p(s, #[trigger] deques[s][i])
}

/// Whether every advance leads to a candidate with a property.
spec fn moves_have(
    moves: Seq<(u16, CandidateEntry)>,
    n: int,
    p: spec_fn(int, CandidateEntry) -> bool,
) -> bool {
    forall|k: int| 0 <= k < moves.len() ==> (#[trigger] moves[k]).0 < n && p(
        moves[k].0 as int,
        moves[k].1,
    )
}

/// A candidate after a later step.
spec fn stepped(c: CandidateEntry, ts: i64) -> CandidateEntry {
    CandidateEntry { anchor_ts: c.anchor_ts, last_step_ts: ts }
}

/// Whether candidates that an event takes on keep a property.
spec fn outlives(nfa: &CompiledNfa, ev: EventView, p: spec_fn(int, CandidateEntry) -> bool) -> bool {
    forall|s: int, t: int, c: CandidateEntry|
        0 <= s < nfa.states@.len() && 0 <= t < nfa.states@[s].transitions@.len() && p(s, c) && ev.ts
            > c.last_step_ts && #[trigger] fires(nfa, ev, s, t) ==> p(
            nfa.states@[s].transitions@[t].target as int,
            #[trigger] stepped(c, ev.ts),
        )
}

/// Whether candidates that an event starts have a property.
spec fn begins_with(nfa: &CompiledNfa, ev: EventView, p: spec_fn(int, CandidateEntry) -> bool) -> bool {
    forall|t: int|
        0 <= t < nfa.states@[0].transitions@.len() && #[trigger] fires(nfa, ev, 0, t) ==> p(
            nfa.states@[0].transitions@[t].target as int,
            CandidateEntry { anchor_ts: ev.ts, last_step_ts: ev.ts },
        )
}

proof fn lemma_advances_have(
    nfa: &CompiledNfa,
    ts: i64,
    d: Seq<CandidateEntry>,
    to: u16,
    n: int,
    states: int,
    p: spec_fn(int, CandidateEntry) -> bool,
)
    requires
        to < states,
        0 <= n <= d.len(),
        forall|i: int|
            0 <= i < d.len() && ts > (#[trigger] d[i]).last_step_ts ==> p(
                to as int,
                stepped(d[i], ts),
            ),
    ensures
        moves_have(advances(nfa, ts, d, to, n), states, p),
    decreases n,
{
    if n > 0 {
        lemma_advances_have(nfa, ts, d, to, n - 1, states, p);
        let _ = d[n - 1];
        let _ = stepped(d[n - 1], ts);
    }
}

proof fn lemma_moves_joined(
    a: Seq<(u16, CandidateEntry)>,
    b: Seq<(u16, CandidateEntry)>,
    n: int,
    p: spec_fn(int, CandidateEntry) -> bool,
)
    requires
        moves_have(a, n, p),
        moves_have(b, n, p),
    ensures
        moves_have(a + b, n, p),
{
    let all = a + b;
    assert forall|k: int| 0 <= k < all.len() implies (#[trigger] all[k]).0 < n && p(
        all[k].0 as int,
        all[k].1,
    ) by {
        if k < a.len() {
            assert(all[k] == a[k]);
        } else {
            assert(all[k] == b[k - a.len()]);
        }
    }
}

proof fn lemma_state_moves_have(
    nfa: &CompiledNfa,
    ev: EventView,
    s: int,
    d: Seq<CandidateEntry>,
    k: int,
    p: spec_fn(int, CandidateEntry) -> bool,
)
    requires
        nfa.wf(),
        outlives(nfa, ev, p),
        0 <= s < nfa.states@.len(),
        0 <= k <= nfa.states@[s].transitions@.len(),
        forall|i: int| 0 <= i < d.len() ==> p(s, #[trigger] d[i]),
    ensures
        moves_have(state_moves(nfa, ev, s, d, k), nfa.states@.len() as int, p),
    decreases k,
{
    if k > 0 {
        lemma_state_moves_have(nfa, ev, s, d, k - 1, p);
        let to = nfa.states@[s].transitions@[k - 1].target;
        if fires(nfa, ev, s, k - 1) {
            assert forall|i: int|
                0 <= i < d.len() && ev.ts > (#[trigger] d[i]).last_step_ts implies p(
                to as int,
                stepped(d[i], ev.ts),
            ) by {
                assert(p(s, d[i]));
            }
            lemma_advances_have(nfa, ev.ts, d, to, d.len() as int, nfa.states@.len() as int, p);
            lemma_moves_joined(
                state_moves(nfa, ev, s, d, k - 1),
                advances(nfa, ev.ts, d, to, d.len() as int),
                nfa.states@.len() as int,
                p,
            );
        }
    }
}

proof fn lemma_survivors_have(
    nfa: &CompiledNfa,
    ev: EventView,
    s: int,
    d: Seq<CandidateEntry>,
    p: spec_fn(int, CandidateEntry) -> bool,
)
    requires
        forall|i: int| 0 <= i < d.len() ==> p(s, #[trigger] d[i]),
    ensures
        forall|i: int|
            0 <= i < survivors(nfa, ev, s, d).len() ==> p(
                s,
                #[trigger] survivors(nfa, ev, s, d)[i],
            ),
{
    lemma_swept_within(nfa, ev, d);
    let r = survivors(nfa, ev, s, d);
    assert forall|i: int| 0 <= i < r.len() implies p(s, #[trigger] r[i]) by {
        assert(d.contains(current(nfa, ev, d)[i]));
    }
}

proof fn lemma_moves_have(
    nfa: &CompiledNfa,
    ev: EventView,
    deques: Seq<Seq<CandidateEntry>>,
    lo: int,
    p: spec_fn(int, CandidateEntry) -> bool,
)
    requires
        nfa.wf(),
        outlives(nfa, ev, p),
        deques.len() == nfa.states@.len(),
        all_have(deques, p),
        0 <= lo <= deques.len(),
    ensures
        moves_have(moves_down_to(nfa, ev, deques, lo), nfa.states@.len() as int, p),
    decreases deques.len() - lo,
{
    if lo < deques.len() {
        lemma_moves_have(nfa, ev, deques, lo + 1, p);
        if lo != nfa.accept_state as int {
            let d = survivors(nfa, ev, lo, deques[lo]);
            let k = nfa.states@[lo].transitions@.len() as int;
            assert forall|i: int| 0 <= i < deques[lo].len() implies p(
                lo,
                #[trigger] deques[lo][i],
            ) by {}
            lemma_survivors_have(nfa, ev, lo, deques[lo], p);
            lemma_state_moves_have(nfa, ev, lo, d, k, p);
            lemma_moves_joined(
                moves_down_to(nfa, ev, deques, lo + 1),
                state_moves(nfa, ev, lo, d, k),
                nfa.states@.len() as int,
                p,
            );
        }
    }
}

proof fn lemma_placed_have(
    deques: Seq<Seq<CandidateEntry>>,
    to: int,
    c: CandidateEntry,
    p: spec_fn(int, CandidateEntry) -> bool,
)
    requires
        all_have(deques, p),
        0 <= to < deques.len(),
        p(to, c),
    ensures
        all_have(deques.update(to, with_candidate(deques[to], c)), p),
{
    let d = deques[to];
    let k = anchor_position(d, c.anchor_ts);
    lemma_anchor_position(d, c.anchor_ts);
    let all = deques.update(to, with_candidate(d, c));
    assert forall|s: int, i: int| 0 <= s < all.len() && 0 <= i < all[s].len() implies p(
        s,
        #[trigger] all[s][i],
    ) by {
        if s == to {
            if k >= 0 {
                if i == k {
                    let _ = deques[to][k];
                    assert(all[s][i] == d[k] || all[s][i] == c);
                } else {
                    assert(all[s][i] == deques[to][i]);
                }
            } else if i < d.len() {
                assert(all[s][i] == deques[to][i]);
            }
        } else {
            assert(all[s][i] == deques[s][i]);
        }
    }
}

proof fn lemma_moved_have(
    deques: Seq<Seq<CandidateEntry>>,
    moves: Seq<(u16, CandidateEntry)>,
    p: spec_fn(int, CandidateEntry) -> bool,
)
    requires
        all_have(deques, p),
        moves_have(moves, deques.len() as int, p),
    ensures
        moved(deques, moves).len() == deques.len(),
        all_have(moved(deques, moves), p),
    decreases moves.len(),
{
    if moves.len() > 0 {
        let rest = moves.drop_last();
        assert forall|k: int| 0 <= k < rest.len() implies (#[trigger] rest[k]).0 < deques.len() && p(
            rest[k].0 as int,
            rest[k].1,
        ) by {
            assert(rest[k] == moves[k]);
        }
        lemma_moved_have(deques, rest, p);
        let (to, c) = moves.last();
        assert(moves[moves.len() - 1] == (to, c));
        lemma_placed_have(moved(deques, rest), to as int, c, p);
    }
}

proof fn lemma_started_have(
    nfa: &CompiledNfa,
    ev: EventView,
    deques: Seq<Seq<CandidateEntry>>,
    k: int,
    p: spec_fn(int, CandidateEntry) -> bool,
)
    requires
        nfa.wf(),
        deques.len() == nfa.states@.len(),
        all_have(deques, p),
        begins_with(nfa, ev, p),
        0 <= k <= nfa.states@[0].transitions@.len(),
    ensures
        started(nfa, ev, deques, k).len() == deques.len(),
        all_have(started(nfa, ev, deques, k), p),
    decreases k,
{
    if k > 0 {
        lemma_started_have(nfa, ev, deques, k - 1, p);
        if fires(nfa, ev, 0, k - 1) {
            lemma_placed_have(
                started(nfa, ev, deques, k - 1),
                nfa.states@[0].transitions@[k - 1].target as int,
                CandidateEntry { anchor_ts: ev.ts, last_step_ts: ev.ts },
                p,
            );
        }
    }
}

proof fn lemma_limited_have(
    deques: Seq<Seq<CandidateEntry>>,
    dropped: u64,
    limit: nat,
    p: spec_fn(int, CandidateEntry) -> bool,
)
    requires
        all_have(deques, p),
    ensures
        limited(deques, dropped, limit).0.len() == deques.len(),
        all_have(limited(deques, dropped, limit).0, p),
    decreases total_count(deques),
{
    lemma_oldest_front(deques, deques.len() as int);
    if let Some(i) = oldest_front(deques, deques.len() as int) {
        if total_count(deques) > limit {
            lemma_count_after_pop(deques, i, deques.len() as int);
            let rest = deques.update(i, deques[i].drop_first());
            assert forall|s: int, j: int| 0 <= s < rest.len() && 0 <= j < rest[s].len() implies p(
                s,
                #[trigger] rest[s][j],
            ) by {
                if s == i {
                    assert(rest[s][j] == deques[s][j + 1]);
                } else {
                    assert(rest[s][j] == deques[s][j]);
                }
            }
            lemma_limited_have(rest, super::nfa::one_more(dropped), limit, p);
        }
    }
}

/// What an event leaves of the candidates, before the accept state is checked.
spec fn advanced(setup: NfaSetup, m: NfaModel, ev: EventView) -> NfaModel {
    with_starts(&setup.nfa, setup.entry_range, ev, propagated(&setup.nfa, ev, m))
}

/// A property of all candidates that new ones have outlives the steps that an event causes.
proof fn lemma_advanced_have(
    setup: NfaSetup,
    m: NfaModel,
    ev: EventView,
    p: spec_fn(int, CandidateEntry) -> bool,
)
    requires
        setup.nfa.wf(),
        m.deques.len() == setup.nfa.states@.len(),
        all_have(m.deques, p),
        outlives(&setup.nfa, ev, p),
        may_start(setup.entry_range, m.scan_from, ev.ts) ==> begins_with(&setup.nfa, ev, p),
    ensures
        advanced(setup, m, ev).deques.len() == setup.nfa.states@.len(),
        all_have(advanced(setup, m, ev).deques, p),
{
    let nfa = &setup.nfa;
    let survived = surviving_from(nfa, ev, m.deques, 0);
    assert forall|s: int, i: int| 0 <= s < survived.len() && 0 <= i < survived[s].len() implies p(
        s,
        #[trigger] survived[s][i],
    ) by {
        assert forall|j: int| 0 <= j < m.deques[s].len() implies p(
            s,
            #[trigger] m.deques[s][j],
        ) by {}
        lemma_survivors_have(nfa, ev, s, m.deques[s], p);
        if s == nfa.accept_state as int {
            let _ = m.deques[s][i];
        }
    }
    lemma_moves_have(nfa, ev, m.deques, 0, p);
    lemma_moved_have(survived, moves_down_to(nfa, ev, m.deques, 0), p);
    let first = propagated(nfa, ev, m);
    if may_start(setup.entry_range, first.scan_from, ev.ts) {
        lemma_started_have(nfa, ev, first.deques, nfa.states@[0].transitions@.len() as int, p);
    }
}

/// Whether a candidate begins after a point in time and does not end before it
/// begins.
spec fn begins_after(from: Option<i64>) -> spec_fn(int, CandidateEntry) -> bool {
    |s: int, c: CandidateEntry|
        c.anchor_ts <= c.last_step_ts && (from matches Some(f) ==> c.anchor_ts > f)
}

/// Whether matches follow one another: each begins strictly after the one before has
/// ended.
pub open spec fn disjoint(matches_found: Seq<CompletionView>) -> bool {
    &&& forall|i: int|
        0 <= i < matches_found.len() ==> (#[trigger] matches_found[i]).anchor_ts
            <= matches_found[i].final_ts
    &&& forall|i: int, j: int|
        0 <= i < j < matches_found.len() ==> (#[trigger] matches_found[i]).final_ts < (
        #[trigger] matches_found[j]).anchor_ts
}

/// What holds between events when all matches are looked for.
spec fn spaced(setup: NfaSetup, m: NfaModel) -> bool {
    &&& m.deques.len() == setup.nfa.states@.len()
    &&& disjoint(m.completions)
    &&& m.completions.len() > 0 ==> m.scan_from == Some(m.completions.last().final_ts)
    &&& all_have(m.deques, begins_after(m.scan_from))
}

proof fn lemma_spaced_step(setup: NfaSetup, m: NfaModel, ev: EventView)
    requires
        setup.nfa.wf(),
        setup.match_all,
        spaced(setup, m),
    ensures
        spaced(setup, after_event(setup, m, ev)),
{
    let nfa = &setup.nfa;
    if nfa.is_relevant(ev.event_type) {
        let p = begins_after(m.scan_from);
        assert(outlives(nfa, ev, p));
        let first = propagated(nfa, ev, m);
        let second = with_starts(nfa, setup.entry_range, ev, first);
        lemma_advanced_have(setup, m, ev, p);
        let third = accepted(nfa, true, second);
        let a = nfa.accept_state as int;
        if second.deques[a].len() > 0 {
            let c = second.deques[a][0];
            assert(p(a, c));
            let found = third.completions;
            assert forall|i: int, j: int| 0 <= i < j < found.len() implies (
            #[trigger] found[i]).final_ts < (#[trigger] found[j]).anchor_ts by {
                let old_found = m.completions;
                assert(found[i] == old_found[i]);
                if j < old_found.len() {
                    assert(found[j] == old_found[j]);
                } else if i < old_found.len() - 1 {
                    let last = old_found[old_found.len() - 1];
                    assert(old_found[i].final_ts < last.anchor_ts);
                }
            }
            assert forall|i: int| 0 <= i < found.len() implies (#[trigger] found[i]).anchor_ts
                <= found[i].final_ts by {
                if i < m.completions.len() {
                    assert(found[i] == m.completions[i]);
                }
            }
        }
        assert(all_have(third.deques, begins_after(third.scan_from)));
        lemma_limited_have(
            third.deques,
            third.dropped_count,
            setup.limit,
            begins_after(third.scan_from),
        );
    }
}

/// Matches of one entity never overlap: each begins strictly after the one before has
/// ended.
pub proof fn theorem_matches_disjoint(setup: NfaSetup, events: Seq<EventView>)
    requires
        setup.nfa.wf(),
        setup.match_all,
    ensures
        disjoint(
            after_events(setup, fresh_model(setup.nfa.states@.len()), events).completions,
        ),
{
    lemma_spaced(setup, events);
}

proof fn lemma_spaced(setup: NfaSetup, events: Seq<EventView>)
    requires
        setup.nfa.wf(),
        setup.match_all,
    ensures
        spaced(setup, after_events(setup, fresh_model(setup.nfa.states@.len()), events)),
    decreases events.len(),
{
    if events.len() > 0 {
        lemma_spaced(setup, events.drop_last());
        lemma_spaced_step(
            setup,
            after_events(setup, fresh_model(setup.nfa.states@.len()), events.drop_last()),
            events.last(),
        );
    }
}

proof fn lemma_no_oldest(deques: Seq<Seq<CandidateEntry>>, n: int)
    requires
        0 <= n <= deques.len(),
        oldest_front(deques, n) is None,
    ensures
        candidate_count(deques, n) == 0,
    decreases n,
{
    if n > 0 {
        lemma_no_oldest(deques, n - 1);
    }
}

proof fn lemma_limited_count(deques: Seq<Seq<CandidateEntry>>, dropped: u64, limit: nat)
    ensures
        total_count(limited(deques, dropped, limit).0) <= limit,
    decreases total_count(deques),
{
    lemma_oldest_front(deques, deques.len() as int);
    match oldest_front(deques, deques.len() as int) {
        Some(i) => {
            if total_count(deques) > limit {
                lemma_count_after_pop(deques, i, deques.len() as int);
                lemma_limited_count(
                    deques.update(i, deques[i].drop_first()),
                    super::nfa::one_more(dropped),
                    limit,
                );
            }
        },
        None => {
            lemma_no_oldest(deques, deques.len() as int);
        },
    }
}

/// No event leaves more candidates than the limit allows.
pub proof fn theorem_limit_kept(setup: NfaSetup, m: NfaModel, ev: EventView)
    requires
        setup.nfa.is_relevant(ev.event_type),
    ensures
        total_count(after_event(setup, m, ev).deques) <= setup.limit,
{
    let nfa = &setup.nfa;
    let advanced = with_starts(nfa, setup.entry_range, ev, propagated(nfa, ev, m));
    let done = accepted(nfa, setup.match_all, advanced);
    lemma_limited_count(done.deques, done.dropped_count, setup.limit);
}

/// Whether a pattern lists the event type of each of its transitions.
pub open spec fn lists_types(nfa: &CompiledNfa) -> bool {
    forall|s: int, t: int|
        0 <= s < nfa.states@.len() && 0 <= t < nfa.states@[s].transitions@.len()
            ==> nfa.is_relevant((#[trigger] nfa.states@[s].transitions@[t]).event_type@)
}

/// Whether events come in the order of their times.
pub open spec fn in_time_order(events: Seq<EventView>) -> bool {
    forall|j: int, k: int|
        0 <= j <= k < events.len() ==> (#[trigger] events[j]).ts <= (#[trigger] events[k]).ts
}

/// Whether an event takes a transition into a state.
pub open spec fn enters(nfa: &CompiledNfa, ev: EventView, s: int) -> bool {
    exists|from: int, t: int|
        0 <= from < nfa.states@.len() && 0 <= t < nfa.states@[from].transitions@.len()
            && #[trigger] fires(nfa, ev, from, t) && nfa.states@[from].transitions@[t].target as int
            == s
}

/// Whether no step leaves a state at the very time at which an earlier event enters it. A
/// candidate remembers when it last got into its state, so one that got there again is
/// not taken on by an event of that time.
pub open spec fn leaves_later(nfa: &CompiledNfa, events: Seq<EventView>, path: Seq<PathStep>) -> bool {
    forall|i: int, j: int|
        0 < i < path.len() && 0 <= j < path[i].event && enters(
            nfa,
            #[trigger] events[j],
            (#[trigger] path[i]).from,
        ) ==> events[j].ts != events[path[i].event].ts
}

/// Whether steps lead from the start of a pattern to its accept state, after `scan_from`,
/// inside the entry range and the window, with nothing that excludes them.
pub open spec fn leads_to_match(
    setup: NfaSetup,
    scan_from: Option<i64>,
    events: Seq<EventView>,
    path: Seq<PathStep>,
) -> bool {
    let anchor_ts = events[path[0].event].ts;
    let last_step_ts = events[path.last().event].ts;
    &&& stands_for(
        &setup.nfa,
        setup.entry_range,
        events,
        path,
        setup.nfa.accept_state as int,
        CandidateEntry { anchor_ts, last_step_ts },
    )
    &&& may_start(setup.entry_range, scan_from, anchor_ts)
    &&& leaves_later(&setup.nfa, events, path)
}

/// Whether a candidate with an anchor is in a state.
spec fn anchored(d: Seq<CandidateEntry>, anchor: i64) -> bool {
    exists|i: int| 0 <= i < d.len() && (#[trigger] d[i]).anchor_ts == anchor
}

proof fn lemma_placed_anchored(d: Seq<CandidateEntry>, c: CandidateEntry, anchor: i64)
    requires
        anchored(d, anchor) || c.anchor_ts == anchor,
    ensures
        anchored(with_candidate(d, c), anchor),
{
    let k = anchor_position(d, c.anchor_ts);
    let r = with_candidate(d, c);
    lemma_anchor_position(d, c.anchor_ts);
    if c.anchor_ts == anchor {
        if k >= 0 {
            assert(r[k].anchor_ts == anchor);
        } else {
            assert(r[d.len() as int].anchor_ts == anchor);
        }
    } else {
        let i = choose|i: int| 0 <= i < d.len() && (#[trigger] d[i]).anchor_ts == anchor;
        assert(r[i].anchor_ts == anchor);
    }
}

/// Whether an advance into a state is among a list of them.
spec fn has_move(moves: Seq<(u16, CandidateEntry)>, s: int, anchor: i64) -> bool {
    exists|k: int|
        0 <= k < moves.len() && (#[trigger] moves[k]).0 as int == s && moves[k].1.anchor_ts == anchor
}

proof fn lemma_moved_anchored(
    deques: Seq<Seq<CandidateEntry>>,
    moves: Seq<(u16, CandidateEntry)>,
    s: int,
    anchor: i64,
)
    requires
        0 <= s < deques.len(),
        forall|k: int| 0 <= k < moves.len() ==> (#[trigger] moves[k]).0 < deques.len(),
        anchored(deques[s], anchor) || has_move(moves, s, anchor),
    ensures
        moved(deques, moves).len() == deques.len(),
        anchored(moved(deques, moves)[s], anchor),
    decreases moves.len(),
{
    if moves.len() > 0 {
        let rest = moves.drop_last();
        let (to, c) = moves.last();
        assert(moves[moves.len() - 1] == (to, c));
        assert forall|k: int| 0 <= k < rest.len() implies (#[trigger] rest[k]).0 < deques.len() by {
            assert(rest[k] == moves[k]);
        }
        lemma_moved_shape(deques, rest);
        let before = moved(deques, rest);
        if anchored(deques[s], anchor) || has_move(rest, s, anchor) {
            lemma_moved_anchored(deques, rest, s, anchor);
            if s == to as int {
                lemma_placed_anchored(before[s], c, anchor);
            }
        } else {
            let k = choose|k: int|
                0 <= k < moves.len() && (#[trigger] moves[k]).0 as int == s
                    && moves[k].1.anchor_ts == anchor;
            if k < rest.len() {
                assert(rest[k] == moves[k]);
                assert(has_move(rest, s, anchor));
            }
            lemma_placed_anchored(before[s], c, anchor);
        }
    }
}

proof fn lemma_moved_shape(deques: Seq<Seq<CandidateEntry>>, moves: Seq<(u16, CandidateEntry)>)
    requires
        forall|k: int| 0 <= k < moves.len() ==> (#[trigger] moves[k]).0 < deques.len(),
    ensures
        moved(deques, moves).len() == deques.len(),
    decreases moves.len(),
{
    if moves.len() > 0 {
        let rest = moves.drop_last();
        assert(moves[moves.len() - 1] == moves.last());
        assert forall|k: int| 0 <= k < rest.len() implies (#[trigger] rest[k]).0 < deques.len() by {
            assert(rest[k] == moves[k]);
        }
        lemma_moved_shape(deques, moves.drop_last());
    }
}

proof fn lemma_started_anchored(
    nfa: &CompiledNfa,
    ev: EventView,
    deques: Seq<Seq<CandidateEntry>>,
    k: int,
    s: int,
    anchor: i64,
)
    requires
        nfa.wf(),
        deques.len() == nfa.states@.len(),
        0 <= s < deques.len(),
        0 <= k <= nfa.states@[0].transitions@.len(),
        anchored(deques[s], anchor) || (anchor == ev.ts && exists|t: int|
            0 <= t < k && #[trigger] fires(nfa, ev, 0, t)
                && nfa.states@[0].transitions@[t].target as int == s),
    ensures
        started(nfa, ev, deques, k).len() == deques.len(),
        anchored(started(nfa, ev, deques, k)[s], anchor),
    decreases k,
{
    if k > 0 {
        let before = started(nfa, ev, deques, k - 1);
        let c = CandidateEntry { anchor_ts: ev.ts, last_step_ts: ev.ts };
        let to = nfa.states@[0].transitions@[k - 1].target as int;
        lemma_started_shape(nfa, ev, deques, k - 1);
        let earlier = anchored(deques[s], anchor) || (anchor == ev.ts && exists|t: int|
            0 <= t < k - 1 && #[trigger] fires(nfa, ev, 0, t)
                && nfa.states@[0].transitions@[t].target as int == s);
        if earlier {
            lemma_started_anchored(nfa, ev, deques, k - 1, s, anchor);
        } else {
            let t = choose|t: int|
                0 <= t < k && #[trigger] fires(nfa, ev, 0, t)
                    && nfa.states@[0].transitions@[t].target as int == s;
            assert(t == k - 1);
        }
        if fires(nfa, ev, 0, k - 1) && to == s {
            lemma_placed_anchored(before[s], c, anchor);
        }
    }
}

proof fn lemma_started_shape(
    nfa: &CompiledNfa,
    ev: EventView,
    deques: Seq<Seq<CandidateEntry>>,
    k: int,
)
    requires
        nfa.wf(),
        deques.len() == nfa.states@.len(),
        0 <= k <= nfa.states@[0].transitions@.len(),
    ensures
        started(nfa, ev, deques, k).len() == deques.len(),
    decreases k,
{
    if k > 0 {
        lemma_started_shape(nfa, ev, deques, k - 1);
    }
}

/// A candidate inside its window outlives an event that does not kill it.
proof fn lemma_survives(
    nfa: &CompiledNfa,
    ev: EventView,
    s: int,
    d: Seq<CandidateEntry>,
    anchor: i64,
)
    requires
        anchored(d, anchor),
        !poisoned(nfa, ev, s),
        nfa.global_window matches Some(w) ==> ev.ts - anchor <= w,
    ensures
        anchored(survivors(nfa, ev, s, d), anchor),
{
    broadcast use vstd::seq_lib::group_filter_ensures;

    let i = choose|i: int| 0 <= i < d.len() && (#[trigger] d[i]).anchor_ts == anchor;
    if let Some(w) = nfa.global_window {
        let keep = |c: CandidateEntry| !super::nfa::expired(ev.ts, c.anchor_ts, w);
        assert(keep(d[i]));
        let r = d.filter(keep);
        assert(r.contains(d[i]));
        let j = choose|j: int| 0 <= j < r.len() && r[j] == d[i];
        assert(r[j].anchor_ts == anchor);
    }
}

proof fn lemma_advances_move(
    nfa: &CompiledNfa,
    ts: i64,
    d: Seq<CandidateEntry>,
    to: u16,
    n: int,
    i: int,
)
    requires
        0 <= i < n <= d.len(),
        eligible(nfa, ts, d[i]),
    ensures
        has_move(advances(nfa, ts, d, to, n), to as int, d[i].anchor_ts),
    decreases n,
{
    let all = advances(nfa, ts, d, to, n);
    let before = advances(nfa, ts, d, to, n - 1);
    if i < n - 1 {
        lemma_advances_move(nfa, ts, d, to, n - 1, i);
        let k = choose|k: int|
            0 <= k < before.len() && (#[trigger] before[k]).0 as int == to as int
                && before[k].1.anchor_ts == d[i].anchor_ts;
        assert(all[k] == before[k]);
    } else {
        assert(all[before.len() as int].0 as int == to as int);
    }
}

proof fn lemma_joined_move(
    a: Seq<(u16, CandidateEntry)>,
    b: Seq<(u16, CandidateEntry)>,
    s: int,
    anchor: i64,
)
    requires
        has_move(a, s, anchor) || has_move(b, s, anchor),
    ensures
        has_move(a + b, s, anchor),
{
    let all = a + b;
    if has_move(a, s, anchor) {
        let k = choose|k: int|
            0 <= k < a.len() && (#[trigger] a[k]).0 as int == s && a[k].1.anchor_ts == anchor;
        assert(all[k] == a[k]);
    } else {
        let k = choose|k: int|
            0 <= k < b.len() && (#[trigger] b[k]).0 as int == s && b[k].1.anchor_ts == anchor;
        assert(all[a.len() + k] == b[k]);
    }
}

proof fn lemma_state_move(
    nfa: &CompiledNfa,
    ev: EventView,
    s: int,
    d: Seq<CandidateEntry>,
    k: int,
    t: int,
    i: int,
)
    requires
        0 <= t < k,
        fires(nfa, ev, s, t),
        0 <= i < d.len(),
        eligible(nfa, ev.ts, d[i]),
    ensures
        has_move(
            state_moves(nfa, ev, s, d, k),
            nfa.states@[s].transitions@[t].target as int,
            d[i].anchor_ts,
        ),
    decreases k,
{
    let to = nfa.states@[s].transitions@[t].target;
    let before = state_moves(nfa, ev, s, d, k - 1);
    if t < k - 1 {
        lemma_state_move(nfa, ev, s, d, k - 1, t, i);
        if fires(nfa, ev, s, k - 1) {
            lemma_joined_move(
                before,
                advances(
                    nfa,
                    ev.ts,
                    d,
                    nfa.states@[s].transitions@[k - 1].target,
                    d.len() as int,
                ),
                to as int,
                d[i].anchor_ts,
            );
        }
    } else {
        lemma_advances_move(nfa, ev.ts, d, to, d.len() as int, i);
        lemma_joined_move(
            before,
            advances(nfa, ev.ts, d, to, d.len() as int),
            to as int,
            d[i].anchor_ts,
        );
    }
}

proof fn lemma_all_moves(
    nfa: &CompiledNfa,
    ev: EventView,
    deques: Seq<Seq<CandidateEntry>>,
    lo: int,
    s: int,
    to: int,
    anchor: i64,
)
    requires
        0 <= lo <= s < deques.len(),
        s != nfa.accept_state as int,
        has_move(
            state_moves(
                nfa,
                ev,
                s,
                survivors(nfa, ev, s, deques[s]),
                nfa.states@[s].transitions@.len() as int,
            ),
            to,
            anchor,
        ),
    ensures
        has_move(moves_down_to(nfa, ev, deques, lo), to, anchor),
    decreases deques.len() - lo,
{
    let rest = moves_down_to(nfa, ev, deques, lo + 1);
    if lo < s {
        lemma_all_moves(nfa, ev, deques, lo + 1, s, to, anchor);
    }
    if lo != nfa.accept_state as int {
        lemma_joined_move(
            rest,
            state_moves(
                nfa,
                ev,
                lo,
                survivors(nfa, ev, lo, deques[lo]),
                nfa.states@[lo].transitions@.len() as int,
            ),
            to,
            anchor,
        );
    }
}

/// Candidates that are there after the advances are there after the starts.
proof fn lemma_advanced_anchored(setup: NfaSetup, m: NfaModel, ev: EventView, s: int, anchor: i64)
    requires
        setup.nfa.wf(),
        m.deques.len() == setup.nfa.states@.len(),
        0 <= s < m.deques.len(),
        anchored(surviving_from(&setup.nfa, ev, m.deques, 0)[s], anchor) || has_move(
            moves_down_to(&setup.nfa, ev, m.deques, 0),
            s,
            anchor,
        ) || (may_start(setup.entry_range, m.scan_from, ev.ts) && anchor == ev.ts && exists|t: int|
            0 <= t < setup.nfa.states@[0].transitions@.len() && #[trigger] fires(
                &setup.nfa,
                ev,
                0,
                t,
            ) && setup.nfa.states@[0].transitions@[t].target as int == s),
    ensures
        advanced(setup, m, ev).deques.len() == m.deques.len(),
        anchored(advanced(setup, m, ev).deques[s], anchor),
{
    let nfa = &setup.nfa;
    let survived = surviving_from(nfa, ev, m.deques, 0);
    let moves = moves_down_to(nfa, ev, m.deques, 0);
    let anything = |s: int, c: CandidateEntry| true;
    assert(outlives(nfa, ev, anything));
    lemma_moves_have(nfa, ev, m.deques, 0, anything);
    assert forall|k: int| 0 <= k < moves.len() implies (#[trigger] moves[k]).0
        < survived.len() by {}
    lemma_moved_shape(survived, moves);
    if anchored(survived[s], anchor) || has_move(moves, s, anchor) {
        lemma_moved_anchored(survived, moves, s, anchor);
    }
    let first = propagated(nfa, ev, m);
    if may_start(setup.entry_range, first.scan_from, ev.ts) {
        lemma_started_anchored(
            nfa,
            ev,
            first.deques,
            nfa.states@[0].transitions@.len() as int,
            s,
            anchor,
        );
    }
}

/// Dropping candidates counts them.
proof fn lemma_limited_drops(deques: Seq<Seq<CandidateEntry>>, dropped: u64, limit: nat)
    ensures
        limited(deques, dropped, limit).1 >= dropped,
        dropped < u64::MAX && limited(deques, dropped, limit).1 == dropped ==> limited(
            deques,
            dropped,
            limit,
        ).0 == deques,
    decreases total_count(deques),
{
    lemma_oldest_front(deques, deques.len() as int);
    if let Some(i) = oldest_front(deques, deques.len() as int) {
        if total_count(deques) > limit {
            lemma_count_after_pop(deques, i, deques.len() as int);
            lemma_limited_drops(
                deques.update(i, deques[i].drop_first()),
                super::nfa::one_more(dropped),
                limit,
            );
        }
    }
}

/// No event takes back a drop.
proof fn lemma_drops_grow(setup: NfaSetup, m: NfaModel, events: Seq<EventView>)
    ensures
        after_events(setup, m, events).dropped_count >= m.dropped_count,
    decreases events.len(),
{
    if events.len() > 0 {
        let before = after_events(setup, m, events.drop_last());
        lemma_drops_grow(setup, m, events.drop_last());
        lemma_drop_step(setup, before, events.last());
    }
}

proof fn lemma_drop_step(setup: NfaSetup, m: NfaModel, ev: EventView)
    ensures
        after_event(setup, m, ev).dropped_count >= m.dropped_count,
{
    if setup.nfa.is_relevant(ev.event_type) {
        let done = accepted(&setup.nfa, setup.match_all, advanced(setup, m, ev));
        lemma_limited_drops(done.deques, done.dropped_count, setup.limit);
    }
}

/// A candidate that the accept state does not take, with no candidate dropped, is there
/// after the event.
proof fn lemma_kept(setup: NfaSetup, m: NfaModel, ev: EventView, s: int, anchor: i64)
    requires
        setup.nfa.wf(),
        setup.nfa.is_relevant(ev.event_type),
        advanced(setup, m, ev).deques.len() == setup.nfa.states@.len(),
        0 <= s < setup.nfa.states@.len(),
        anchored(advanced(setup, m, ev).deques[s], anchor),
        m.dropped_count < u64::MAX,
        after_event(setup, m, ev).dropped_count == m.dropped_count,
    ensures
        after_event(setup, m, ev).completions.len() > m.completions.len() || ({
            &&& s != setup.nfa.accept_state as int
            &&& after_event(setup, m, ev).scan_from == m.scan_from
            &&& after_event(setup, m, ev).deques.len() == setup.nfa.states@.len()
            &&& anchored(after_event(setup, m, ev).deques[s], anchor)
        }),
{
    let done = accepted(&setup.nfa, setup.match_all, advanced(setup, m, ev));
    lemma_limited_drops(done.deques, done.dropped_count, setup.limit);
}

/// Whether a candidate of a state got there before a point in time.
spec fn got_there_before(state: int, ts: i64) -> spec_fn(int, CandidateEntry) -> bool {
    |s: int, c: CandidateEntry| s == state ==> c.last_step_ts < ts
}

/// Candidates get into a state at the times of events that enter it.
proof fn lemma_bound(setup: NfaSetup, m: NfaModel, events: Seq<EventView>, state: int, ts: i64)
    requires
        setup.nfa.wf(),
        m.deques.len() == setup.nfa.states@.len(),
        forall|s: int| 0 <= s < m.deques.len() ==> (#[trigger] m.deques[s]).len() == 0,
        forall|j: int|
            0 <= j < events.len() && enters(&setup.nfa, #[trigger] events[j], state)
                ==> events[j].ts < ts,
    ensures
        after_events(setup, m, events).deques.len() == setup.nfa.states@.len(),
        all_have(after_events(setup, m, events).deques, got_there_before(state, ts)),
    decreases events.len(),
{
    let nfa = &setup.nfa;
    let p = got_there_before(state, ts);
    if events.len() > 0 {
        let rest = events.drop_last();
        let ev = events.last();
        assert forall|j: int|
            0 <= j < rest.len() && enters(nfa, #[trigger] rest[j], state) implies rest[j].ts
            < ts by {
            assert(rest[j] == events[j]);
        }
        lemma_bound(setup, m, rest, state, ts);
        if nfa.is_relevant(ev.event_type) {
            assert(events[events.len() - 1] == ev);
            assert forall|s: int, t: int, c: CandidateEntry|
                0 <= s < nfa.states@.len() && 0 <= t < nfa.states@[s].transitions@.len() && p(s, c)
                    && ev.ts > c.last_step_ts && #[trigger] fires(nfa, ev, s, t) implies p(
                nfa.states@[s].transitions@[t].target as int,
                #[trigger] stepped(c, ev.ts),
            ) by {
                if nfa.states@[s].transitions@[t].target as int == state {
                    assert(enters(nfa, ev, state));
                }
            }
            assert forall|t: int|
                0 <= t < nfa.states@[0].transitions@.len() && #[trigger] fires(
                    nfa,
                    ev,
                    0,
                    t,
                ) implies p(
                nfa.states@[0].transitions@[t].target as int,
                CandidateEntry { anchor_ts: ev.ts, last_step_ts: ev.ts },
            ) by {
                if nfa.states@[0].transitions@[t].target as int == state {
                    assert(enters(nfa, ev, state));
                }
            }
            lemma_step_have(setup, after_events(setup, m, rest), ev, p);
        }
    }
}

/// A property of all candidates that new ones have, and that outlives steps, outlives an
/// event.
proof fn lemma_step_have(
    setup: NfaSetup,
    m: NfaModel,
    ev: EventView,
    p: spec_fn(int, CandidateEntry) -> bool,
)
    requires
        setup.nfa.wf(),
        m.deques.len() == setup.nfa.states@.len(),
        setup.nfa.is_relevant(ev.event_type),
        all_have(m.deques, p),
        outlives(&setup.nfa, ev, p),
        begins_with(&setup.nfa, ev, p),
    ensures
        after_event(setup, m, ev).deques.len() == setup.nfa.states@.len(),
        all_have(after_event(setup, m, ev).deques, p),
{
    lemma_advanced_have(setup, m, ev, p);
    let done = accepted(&setup.nfa, setup.match_all, advanced(setup, m, ev));
    assert(all_have(done.deques, p));
    lemma_limited_have(done.deques, done.dropped_count, setup.limit, p);
}

/// Until a match is reported, matching begins where it did.
proof fn lemma_scan_from(setup: NfaSetup, m: NfaModel, events: Seq<EventView>)
    ensures
        after_events(setup, m, events).completions.len() >= m.completions.len(),
        after_events(setup, m, events).completions.len() == m.completions.len() ==> after_events(
            setup,
            m,
            events,
        ).scan_from == m.scan_from,
    decreases events.len(),
{
    if events.len() > 0 {
        lemma_scan_from(setup, m, events.drop_last());
    }
}

/// Later steps of a path come at later times.
proof fn lemma_path_times(
    nfa: &CompiledNfa,
    events: Seq<EventView>,
    path: Seq<PathStep>,
    s: int,
    i: int,
    j: int,
)
    requires
        is_path(nfa, events, path, s),
        0 <= i <= j < path.len(),
    ensures
        events[path[i].event].ts <= events[path[j].event].ts,
        path[i].event <= path[j].event,
    decreases j - i,
{
    if i < j {
        lemma_path_times(nfa, events, path, s, i, j - 1);
        assert(follows(nfa, events, path[j - 1], path[j]));
    }
}

/// After a step of a path, and until the next one, a match was reported or a candidate
/// waits in the state that the step leads to.
proof fn lemma_waits(
    setup: NfaSetup,
    m: NfaModel,
    events: Seq<EventView>,
    path: Seq<PathStep>,
    n: int,
    i: int,
)
    requires
        setup.nfa.wf(),
        lists_types(&setup.nfa),
        m.deques.len() == setup.nfa.states@.len(),
        forall|s: int| 0 <= s < m.deques.len() ==> (#[trigger] m.deques[s]).len() == 0,
        in_time_order(events),
        leads_to_match(setup, m.scan_from, events, path),
        0 <= i < path.len(),
        path[i].event < n <= events.len(),
        i + 1 < path.len() ==> n <= path[i + 1].event,
        i + 1 == path.len() ==> n == path[i].event + 1,
        m.dropped_count < u64::MAX,
        after_events(setup, m, events.take(n)).dropped_count == m.dropped_count,
    ensures
        after_events(setup, m, events.take(n)).completions.len() > m.completions.len() || ({
            let now = after_events(setup, m, events.take(n));
            let s = target(&setup.nfa, path[i]);
            &&& s != setup.nfa.accept_state as int
            &&& now.scan_from == m.scan_from
            &&& now.deques.len() == setup.nfa.states@.len()
            &&& anchored(now.deques[s], events[path[0].event].ts)
        }),
    decreases n,
{
    let nfa = &setup.nfa;
    let accept = nfa.accept_state as int;
    let anchor = events[path[0].event].ts;
    let ev = events[n - 1];
    let prior = events.take(n - 1);
    let before = after_events(setup, m, prior);
    let now = after_events(setup, m, events.take(n));
    assert(events.take(n).drop_last() =~= prior);
    assert(events.take(n).last() == ev);
    assert(now == after_event(setup, before, ev));
    lemma_drops_grow(setup, m, prior);
    lemma_drop_step(setup, before, ev);
    lemma_scan_from(setup, m, prior);
    theorem_one_match_per_event(setup, before, ev);
    assert(step_taken(nfa, events, path[i]));
    assert(step_taken(nfa, events, path[0]));
    let s = target(nfa, path[i]);
    assert(nfa.states@[path[i].from].transitions@[path[i].transition].target
        < nfa.states@.len());
    if before.completions.len() == m.completions.len() {
        if n - 1 == path[i].event {
            assert(nfa.is_relevant(
                nfa.states@[path[i].from].transitions@[path[i].transition].event_type@,
            ));
            lemma_deques_len(setup, m, prior);
            if i == 0 {
                assert(fires(nfa, ev, 0, path[0].transition));
                lemma_advanced_anchored(setup, before, ev, s, anchor);
            } else {
                assert(follows(nfa, events, path[i - 1], path[i]));
                assert(step_taken(nfa, events, path[i - 1]));
                lemma_waits(setup, m, events, path, n - 1, i - 1);
                let from = path[i].from;
                lemma_path_times(nfa, events, path, accept, i, path.len() - 1);
                assert(!poisoned(nfa, ev, from));
                lemma_survives(nfa, ev, from, before.deques[from], anchor);
                assert forall|j: int|
                    0 <= j < prior.len() && enters(nfa, #[trigger] prior[j], from) implies prior[j].ts
                    < ev.ts by {
                    assert(prior[j] == events[j]);
                    assert(events[j].ts <= events[n - 1].ts);
                    let _ = path[i];
                }
                lemma_bound(setup, m, prior, from, ev.ts);
                lemma_takes(setup, before, ev, from, path[i].transition, anchor);
                lemma_advanced_anchored(setup, before, ev, s, anchor);
            }
            lemma_kept(setup, before, ev, s, anchor);
        } else {
            lemma_waits(setup, m, events, path, n - 1, i);
            assert(follows(nfa, events, path[i], path[i + 1]));
            if nfa.is_relevant(ev.event_type) {
                assert(!poisoned(nfa, ev, s));
                lemma_path_times(nfa, events, path, accept, i + 1, path.len() - 1);
                assert(step_taken(nfa, events, path[i + 1]));
                assert(events[n - 1].ts <= events[path[i + 1].event].ts);
                lemma_survives(nfa, ev, s, before.deques[s], anchor);
                lemma_advanced_anchored(setup, before, ev, s, anchor);
                lemma_kept(setup, before, ev, s, anchor);
            }
        }
    }
}

proof fn lemma_deques_len(setup: NfaSetup, m: NfaModel, events: Seq<EventView>)
    requires
        setup.nfa.wf(),
        m.deques.len() == setup.nfa.states@.len(),
    ensures
        after_events(setup, m, events).deques.len() == setup.nfa.states@.len(),
    decreases events.len(),
{
    if events.len() > 0 {
        let before = after_events(setup, m, events.drop_last());
        let anything = |s: int, c: CandidateEntry| true;
        lemma_deques_len(setup, m, events.drop_last());
        if setup.nfa.is_relevant(events.last().event_type) {
            assert(all_have(before.deques, anything));
            assert(outlives(&setup.nfa, events.last(), anything));
            assert(begins_with(&setup.nfa, events.last(), anything));
            lemma_step_have(setup, before, events.last(), anything);
        }
    }
}

/// A candidate that outlives an event, and got into its state before it, is taken on by
/// a transition that the event takes.
proof fn lemma_takes(
    setup: NfaSetup,
    m: NfaModel,
    ev: EventView,
    s: int,
    t: int,
    anchor: i64,
)
    requires
        m.deques.len() == setup.nfa.states@.len(),
        0 <= s < m.deques.len(),
        s != setup.nfa.accept_state as int,
        0 <= t < setup.nfa.states@[s].transitions@.len(),
        fires(&setup.nfa, ev, s, t),
        anchored(survivors(&setup.nfa, ev, s, m.deques[s]), anchor),
        setup.nfa.global_window matches Some(w) ==> ev.ts - anchor <= w,
        all_have(m.deques, got_there_before(s, ev.ts)),
    ensures
        has_move(
            moves_down_to(&setup.nfa, ev, m.deques, 0),
            setup.nfa.states@[s].transitions@[t].target as int,
            anchor,
        ),
{
    let nfa = &setup.nfa;
    let p = got_there_before(s, ev.ts);
    let d = survivors(nfa, ev, s, m.deques[s]);
    assert forall|j: int| 0 <= j < m.deques[s].len() implies p(s, #[trigger] m.deques[s][j]) by {}
    lemma_survivors_have(nfa, ev, s, m.deques[s], p);
    let i = choose|i: int| 0 <= i < d.len() && (#[trigger] d[i]).anchor_ts == anchor;
    assert(p(s, d[i]));
    lemma_state_move(nfa, ev, s, d, nfa.states@[s].transitions@.len() as int, t, i);
    lemma_all_moves(
        nfa,
        ev,
        m.deques,
        0,
        s,
        nfa.states@[s].transitions@[t].target as int,
        anchor,
    );
}

/// No match is missed: where events that come in the order of their times lead from the
/// start of a pattern to its accept state, inside the window and the entry range, with no
/// event in between that excludes the match and no candidate dropped over the limit, a
/// match is reported no later than with the last of them. This holds from the beginning
/// and after every match that was consumed, when no candidate waits. No step may leave a
/// state at the very time at which an earlier event enters it.
pub proof fn theorem_complete(
    setup: NfaSetup,
    m: NfaModel,
    events: Seq<EventView>,
    path: Seq<PathStep>,
)
    requires
        setup.nfa.wf(),
        lists_types(&setup.nfa),
        m.deques.len() == setup.nfa.states@.len(),
        forall|s: int| 0 <= s < m.deques.len() ==> (#[trigger] m.deques[s]).len() == 0,
        in_time_order(events),
        leads_to_match(setup, m.scan_from, events, path),
        m.dropped_count < u64::MAX,
        after_events(setup, m, events.take(path.last().event + 1)).dropped_count
            == m.dropped_count,
    ensures
        after_events(setup, m, events.take(path.last().event + 1)).completions.len()
            > m.completions.len(),
{
    assert(step_taken(&setup.nfa, events, path[path.len() - 1]));
    lemma_waits(setup, m, events, path, path.last().event + 1, path.len() - 1);
}

} // verus!
