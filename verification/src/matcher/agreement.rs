//! The automaton and the step counter agree on plain linear patterns.

use vstd::prelude::*;

use super::bindings::BindingValueCache;
use super::nfa::{CandidateEntry, EventView, NfaModel, NfaSetup, PredicateCache, accepted, advances,
    after_event, after_rows, eligible, farther, fires, fresh_model, lemma_anchor_position,
    lemma_count_after_pop, lemma_oldest_front, limited, moved, moves_down_to, oldest_front,
    one_more, poisoned, propagated, started, state_moves, survivors, surviving_from, total_count,
    with_candidate, with_starts};
use super::pattern::{CompiledNfa, may_enter};
use super::step_counter::{Step0View, StepModel, StepSetup, TrackView, after_step_event,
    after_step_rows, completed, entered, fresh_steps, fresh_track, lemma_step0_after, next_anchor,
    one_more_u32, started_track, step0_after, stepped, swept, track_with, visited, with_step0};
use super::step_laws::{is_chain, lemma_next_found};

verus! {

/// Whether a pattern is a plain chain: one transition from each state to the next, no
/// window, no exclusions and no variables.
pub open spec fn is_plain_chain(nfa: &CompiledNfa) -> bool {
    &&& is_chain(nfa)
    &&& nfa.global_window is None
    &&& nfa.variable_bindings@.len() == 0
    &&& forall|s: int|
        0 <= s < nfa.states@.len() ==> (#[trigger] nfa.states@[s]).poison_transitions@.len() == 0
    &&& forall|s: int|
        0 <= s < nfa.accept_state ==> {
            &&& (#[trigger] nfa.states@[s]).transitions@.len() == 1
            &&& nfa.states@[s].transitions@[0].check_variables@.len() == 0
        }
}

/// Whether both strategies are set up for one and the same plain chain.
pub open spec fn same_setup(n: NfaSetup, s: StepSetup) -> bool {
    &&& n.nfa == s.nfa
    &&& n.match_all == s.match_all
    &&& n.entry_range == s.entry_range
    &&& s.limit >= 1
    &&& is_plain_chain(&n.nfa)
}

/// The number of steps that the track of an entity has matched.
pub open spec fn steps_matched(m: StepModel) -> int {
    if m.tracks.len() == 0 {
        0
    } else {
        m.tracks[0].current_step as int
    }
}

/// Whether just the states up to `k` have candidates, and the first candidate of each
/// of them began at `anchor`.
pub open spec fn led_by(deques: Seq<Seq<CandidateEntry>>, k: int, anchor: i64) -> bool {
    &&& forall|s: int|
        0 <= s < deques.len() ==> ((#[trigger] deques[s]).len() > 0 <==> 1 <= s <= k)
    &&& forall|s: int| 1 <= s <= k ==> (#[trigger] deques[s])[0].anchor_ts == anchor
}

/// Whether no candidate advanced later than a point in time.
pub open spec fn none_after(deques: Seq<Seq<CandidateEntry>>, now: i64) -> bool {
    forall|s: int, i: int|
        0 <= s < deques.len() && 0 <= i < deques[s].len() ==> (
        #[trigger] deques[s][i]).last_step_ts <= now
}

/// Whether both strategies are at the same place with one entity, with no event later
/// than `now` so far.
pub open spec fn agree(n: NfaSetup, s: StepSetup, nm: NfaModel, sm: StepModel, now: i64) -> bool {
    &&& nm.completions == sm.completions
    &&& nm.dropped_count == 0
    &&& (!n.match_all && nm.completions.len() > 0) || in_step(n, nm, sm, now)
}

/// Whether the step counter's track is where the automaton's foremost candidate is.
pub open spec fn in_step(n: NfaSetup, nm: NfaModel, sm: StepModel, now: i64) -> bool {
    let k = steps_matched(sm);
    &&& nm.deques.len() == n.nfa.states@.len()
    &&& none_after(nm.deques, now)
    &&& nm.scan_from matches Some(f) ==> f <= now
    &&& sm.tracks.len() <= 1
    &&& k < n.nfa.accept_state
    &&& led_by(
        nm.deques,
        k,
        if sm.tracks.len() == 0 {
            0
        } else {
            sm.tracks[0].anchor_ts
        },
    )
    &&& sm.tracks.len() == 1 ==> {
        &&& sm.tracks[0].bindings.len() == 0
        &&& !sm.tracks[0].done
        &&& sm.tracks[0].scan_from <= now
        &&& sm.tracks[0].current_step > 0 ==> sm.tracks[0].last_step_ts <= now
    }
    &&& forall|i: int| 0 <= i < sm.step0.len() ==> (#[trigger] sm.step0[i]).anchor_ts <= now
}

/// The anchor of the first move to a state.
spec fn first_to(moves: Seq<(u16, CandidateEntry)>, s: int) -> Option<i64>
    decreases moves.len(),
{
    if moves.len() == 0 {
        None
    } else {
        match first_to(moves.drop_last(), s) {
            Some(a) => Some(a),
            None => if moves.last().0 == s {
                Some(moves.last().1.anchor_ts)
            } else {
                None
            },
        }
    }
}

proof fn lemma_first_joined(a: Seq<(u16, CandidateEntry)>, b: Seq<(u16, CandidateEntry)>, s: int)
    ensures
        first_to(a + b, s) == (match first_to(a, s) {
            Some(x) => Some(x),
            None => first_to(b, s),
        }),
    decreases b.len(),
{
    if b.len() == 0 {
        assert(a + b =~= a);
    } else {
        lemma_first_joined(a, b.drop_last(), s);
        assert((a + b).drop_last() =~= a + b.drop_last());
    }
}

proof fn lemma_first_advance(
    nfa: &CompiledNfa,
    ts: i64,
    d: Seq<CandidateEntry>,
    to: u16,
    n: int,
    s: int,
)
    requires
        nfa.global_window is None,
        0 <= n <= d.len(),
        forall|i: int| 0 <= i < d.len() ==> (#[trigger] d[i]).last_step_ts < ts,
    ensures
        advances(nfa, ts, d, to, n).len() == n,
        first_to(advances(nfa, ts, d, to, n), s) == if to == s && n > 0 {
            Some(d[0].anchor_ts)
        } else {
            None
        },
    decreases n,
{
    if n > 0 {
        lemma_first_advance(nfa, ts, d, to, n - 1, s);
        assert(eligible(nfa, ts, d[n - 1]));
        let before = advances(nfa, ts, d, to, n - 1);
        let all = advances(nfa, ts, d, to, n);
        assert(all.drop_last() =~= before);
    }
}

/// What an event does not kill or expire stays as it is.
proof fn lemma_all_survive(nfa: &CompiledNfa, ev: EventView, s: int, d: Seq<CandidateEntry>)
    requires
        is_plain_chain(nfa),
        0 <= s < nfa.states@.len(),
    ensures
        survivors(nfa, ev, s, d) == d,
        !poisoned(nfa, ev, s),
{
    let _ = nfa.states@[s];
}

proof fn lemma_first_moves(
    nfa: &CompiledNfa,
    ev: EventView,
    deques: Seq<Seq<CandidateEntry>>,
    lo: int,
    s: int,
)
    requires
        is_plain_chain(nfa),
        deques.len() == nfa.states@.len(),
        forall|r: int, i: int|
            0 <= r < deques.len() && 0 <= i < deques[r].len() ==> (
            #[trigger] deques[r][i]).last_step_ts < ev.ts,
        forall|r: int| nfa.accept_state <= r < deques.len() ==> (#[trigger] deques[r]).len() == 0,
        0 <= lo <= deques.len(),
    ensures
        first_to(moves_down_to(nfa, ev, deques, lo), s) == if lo <= s - 1 < nfa.accept_state
            && deques[s - 1].len() > 0 && fires(nfa, ev, s - 1, 0) {
            Some(deques[s - 1][0].anchor_ts)
        } else {
            None
        },
        forall|k: int|
            0 <= k < moves_down_to(nfa, ev, deques, lo).len() ==> (#[trigger] moves_down_to(
                nfa,
                ev,
                deques,
                lo,
            )[k]).0 < deques.len() && moves_down_to(nfa, ev, deques, lo)[k].1.last_step_ts == ev.ts,
    decreases deques.len() - lo,
{
    if lo < deques.len() {
        lemma_first_moves(nfa, ev, deques, lo + 1, s);
        if lo != nfa.accept_state as int {
            let d = deques[lo];
            lemma_all_survive(nfa, ev, lo, d);
            let n = nfa.states@[lo].transitions@.len() as int;
            let before = moves_down_to(nfa, ev, deques, lo + 1);
            let added = state_moves(nfa, ev, lo, d, n);
            lemma_first_joined(before, added, s);
            assert forall|i: int| 0 <= i < d.len() implies (#[trigger] d[i]).last_step_ts
                < ev.ts by {
                let _ = deques[lo][i];
            }
            if lo < nfa.accept_state {
                let _ = nfa.states@[lo];
                let to = nfa.states@[lo].transitions@[0].target;
                assert(state_moves(nfa, ev, lo, d, 0) =~= Seq::empty());
                assert(n == 1);
                if fires(nfa, ev, lo, 0) {
                    let adv = advances(nfa, ev.ts, d, to, d.len() as int);
                    lemma_first_advance(nfa, ev.ts, d, to, d.len() as int, s);
                    lemma_advances_to(nfa, ev.ts, d, to, d.len() as int);
                    assert(added =~= adv);
                } else {
                    assert(added =~= Seq::empty());
                }
            } else {
                lemma_no_moves(nfa, ev, lo, d, n);
            }
            let all = before + added;
            assert forall|k: int| 0 <= k < all.len() implies (#[trigger] all[k]).0 < deques.len()
                && all[k].1.last_step_ts == ev.ts by {
                if k < before.len() {
                    assert(all[k] == before[k]);
                } else {
                    assert(all[k] == added[k - before.len()]);
                }
            }
        }
    }
}

proof fn lemma_advances_to(nfa: &CompiledNfa, ts: i64, d: Seq<CandidateEntry>, to: u16, n: int)
    requires
        0 <= n <= d.len(),
    ensures
        forall|k: int|
            0 <= k < advances(nfa, ts, d, to, n).len() ==> (#[trigger] advances(
                nfa,
                ts,
                d,
                to,
                n,
            )[k]).0 == to && advances(nfa, ts, d, to, n)[k].1.last_step_ts == ts,
    decreases n,
{
    if n > 0 {
        lemma_advances_to(nfa, ts, d, to, n - 1);
        let before = advances(nfa, ts, d, to, n - 1);
        let all = advances(nfa, ts, d, to, n);
        assert forall|k: int| 0 <= k < all.len() implies (#[trigger] all[k]).0 == to
            && all[k].1.last_step_ts == ts by {
            if k < before.len() {
                assert(all[k] == before[k]);
            }
        }
    }
}

/// No candidate makes no move.
proof fn lemma_no_moves(nfa: &CompiledNfa, ev: EventView, s: int, d: Seq<CandidateEntry>, k: int)
    requires
        d.len() == 0,
    ensures
        state_moves(nfa, ev, s, d, k) == Seq::<(u16, CandidateEntry)>::empty(),
    decreases k,
{
    if k > 0 {
        lemma_no_moves(nfa, ev, s, d, k - 1);
        let none = Seq::<(u16, CandidateEntry)>::empty();
        assert(none + none =~= none);
    }
}

/// Placing a candidate keeps the candidate in front in front.
proof fn lemma_front_kept(d: Seq<CandidateEntry>, c: CandidateEntry, now: i64)
    requires
        c.last_step_ts <= now,
        forall|j: int| 0 <= j < d.len() ==> (#[trigger] d[j]).last_step_ts <= now,
    ensures
        with_candidate(d, c).len() > 0,
        with_candidate(d, c)[0].anchor_ts == if d.len() > 0 {
            d[0].anchor_ts
        } else {
            c.anchor_ts
        },
        forall|i: int|
            0 <= i < with_candidate(d, c).len() ==> (#[trigger] with_candidate(
                d,
                c,
            )[i]).last_step_ts <= now,
        c.last_step_ts == now && (d.len() > 0 ==> d[0].last_step_ts == now) ==> with_candidate(
            d,
            c,
        )[0].last_step_ts == now,
{
    lemma_anchor_position(d, c.anchor_ts);
}

proof fn lemma_moved_front(
    deques: Seq<Seq<CandidateEntry>>,
    moves: Seq<(u16, CandidateEntry)>,
    s: int,
    now: i64,
)
    requires
        0 <= s < deques.len(),
        none_after(deques, now),
        forall|k: int|
            0 <= k < moves.len() ==> (#[trigger] moves[k]).0 < deques.len()
                && moves[k].1.last_step_ts == now,
    ensures
        moved(deques, moves).len() == deques.len(),
        deques[s].len() == 0 && moved(deques, moves)[s].len() > 0 ==> moved(
            deques,
            moves,
        )[s][0].last_step_ts == now,
        none_after(moved(deques, moves), now),
        moved(deques, moves)[s].len() > 0 <==> deques[s].len() > 0 || first_to(moves, s) is Some,
        moved(deques, moves)[s].len() > 0 ==> moved(deques, moves)[s][0].anchor_ts == if deques[s].len()
            > 0 {
            deques[s][0].anchor_ts
        } else {
            first_to(moves, s)->0
        },
    decreases moves.len(),
{
    if moves.len() > 0 {
        let rest = moves.drop_last();
        assert forall|k: int| 0 <= k < rest.len() implies (#[trigger] rest[k]).0 < deques.len()
            && rest[k].1.last_step_ts == now by {
            assert(rest[k] == moves[k]);
        }
        lemma_moved_front(deques, rest, s, now);
        let before = moved(deques, rest);
        let (to, c) = moves.last();
        assert(moves[moves.len() - 1] == (to, c));
        assert forall|j: int| 0 <= j < before[to as int].len() implies (
        #[trigger] before[to as int][j]).last_step_ts <= now by {}
        lemma_front_kept(before[to as int], c, now);
        let all = moved(deques, moves);
        assert forall|r: int, i: int| 0 <= r < all.len() && 0 <= i < all[r].len() implies (
        #[trigger] all[r][i]).last_step_ts <= now by {
            if r == to {
                let _ = with_candidate(before[to as int], c)[i];
            } else {
                let _ = before[r][i];
            }
        }
    }
}

proof fn lemma_limited_drops(deques: Seq<Seq<CandidateEntry>>, dropped: u64, limit: nat)
    ensures
        limited(deques, dropped, limit).1 >= dropped,
        dropped == 0 && limited(deques, dropped, limit).1 == 0 ==> limited(deques, dropped, limit).0
            == deques,
    decreases total_count(deques),
{
    lemma_oldest_front(deques, deques.len() as int);
    if let Some(i) = oldest_front(deques, deques.len() as int) {
        if total_count(deques) > limit {
            lemma_count_after_pop(deques, i, deques.len() as int);
            lemma_limited_drops(
                deques.update(i, deques[i].drop_first()),
                one_more(dropped),
                limit,
            );
        }
    }
}

proof fn lemma_drops_grow(setup: NfaSetup, m: NfaModel, ev: EventView)
    ensures
        after_event(setup, m, ev).dropped_count >= m.dropped_count,
{
    let nfa = &setup.nfa;
    let advanced = with_starts(nfa, setup.entry_range, ev, propagated(nfa, ev, m));
    let done = accepted(nfa, setup.match_all, advanced);
    lemma_limited_drops(done.deques, done.dropped_count, setup.limit);
}

proof fn lemma_drops_grow_rows(
    setup: NfaSetup,
    m: NfaModel,
    types: Seq<Option<Seq<char>>>,
    stamps: Seq<i64>,
    cache: PredicateCache,
    row: int,
)
    ensures
        after_rows(setup, m, types, stamps, cache, row).dropped_count >= m.dropped_count,
    decreases stamps.len() - row,
{
    if row >= stamps.len() || (!setup.match_all && m.completions.len() > 0) {
    } else {
        match types[row] {
            Some(event_type) => {
                let ev = EventView { event_type, ts: stamps[row], row, cache };
                lemma_drops_grow(setup, m, ev);
                lemma_drops_grow_rows(
                    setup,
                    after_event(setup, m, ev),
                    types,
                    stamps,
                    cache,
                    row + 1,
                );
            },
            None => {
                lemma_drops_grow_rows(setup, m, types, stamps, cache, row + 1);
            },
        }
    }
}

/// The automaton's candidates after advances and starts: one state farther if the
/// event takes the foremost candidate on, and from the beginning if there was none.
proof fn lemma_advanced(n: NfaSetup, nm: NfaModel, k: int, anchor: i64, ev: EventView, now: i64)
    requires
        is_plain_chain(&n.nfa),
        nm.deques.len() == n.nfa.states@.len(),
        none_after(nm.deques, now),
        now < ev.ts,
        nm.scan_from matches Some(f) ==> f <= now,
        0 <= k < n.nfa.accept_state,
        led_by(nm.deques, k, anchor),
    ensures
        ({
            let r = with_starts(&n.nfa, n.entry_range, ev, propagated(&n.nfa, ev, nm));
            let on = k > 0 && fires(&n.nfa, ev, k, 0);
            let begin = k == 0 && fires(&n.nfa, ev, 0, 0) && may_enter(n.entry_range, ev.ts);
            &&& r.deques.len() == nm.deques.len()
            &&& none_after(r.deques, ev.ts)
            &&& led_by(
                r.deques,
                if on || begin {
                    k + 1
                } else {
                    k
                },
                if begin {
                    ev.ts
                } else {
                    anchor
                },
            )
            &&& on || begin ==> r.deques[k + 1][0].last_step_ts == ev.ts
            &&& r.completions == nm.completions
            &&& r.scan_from == nm.scan_from
            &&& r.dropped_count == nm.dropped_count
        }),
{
    let nfa = &n.nfa;
    let deques = nm.deques;
    let survived = surviving_from(nfa, ev, deques, 0);
    assert forall|s: int| 0 <= s < deques.len() implies survived[s] == deques[s] by {
        lemma_all_survive(nfa, ev, s, deques[s]);
    }
    assert(survived =~= deques);
    let moves = moves_down_to(nfa, ev, deques, 0);
    let first = propagated(nfa, ev, nm);
    let r = with_starts(nfa, n.entry_range, ev, first);
    let on = k > 0 && fires(nfa, ev, k, 0);
    let starts = fires(nfa, ev, 0, 0) && may_enter(n.entry_range, ev.ts);
    let begin = k == 0 && starts;
    let next = if on || begin {
        k + 1
    } else {
        k
    };
    let lead = if begin {
        ev.ts
    } else {
        anchor
    };
    assert(none_after(deques, ev.ts)) by {
        assert forall|s: int, i: int| 0 <= s < deques.len() && 0 <= i < deques[s].len() implies (
        #[trigger] deques[s][i]).last_step_ts <= ev.ts by {}
    }
    assert forall|s: int| 0 <= s < deques.len() implies {
        &&& (#[trigger] first.deques[s]).len() > 0 <==> (1 <= s <= k || (on && s == k + 1))
        &&& first.deques[s].len() > 0 ==> first.deques[s][0].anchor_ts == anchor
        &&& first.deques[s].len() > 0 && s == k + 1 ==> first.deques[s][0].last_step_ts == ev.ts
    } by {
        lemma_first_moves(nfa, ev, deques, 0, s);
        lemma_moved_front(deques, moves, s, ev.ts);
        let _ = deques[s];
        if s > 0 {
            let _ = deques[s - 1];
        }
    }
    lemma_first_moves(nfa, ev, deques, 0, 0);
    lemma_moved_front(deques, moves, 0, ev.ts);
    let _ = first.deques[k + 1];
    let _ = nfa.states@[0];
    assert(nfa.states@[0].transitions@.len() == 1);
    if starts {
        let c = CandidateEntry { anchor_ts: ev.ts, last_step_ts: ev.ts };
        assert(started(nfa, ev, first.deques, 0) == first.deques);
        assert(r.deques == first.deques.update(1, with_candidate(first.deques[1], c)));
        assert forall|j: int| 0 <= j < first.deques[1].len() implies (
        #[trigger] first.deques[1][j]).last_step_ts <= ev.ts by {}
        lemma_front_kept(first.deques[1], c, ev.ts);
        assert forall|s: int, i: int| 0 <= s < r.deques.len() && 0 <= i
            < r.deques[s].len() implies (#[trigger] r.deques[s][i]).last_step_ts <= ev.ts by {
            if s == 1 {
                let _ = with_candidate(first.deques[1], c)[i];
            } else {
                let _ = first.deques[s][i];
            }
        }
        assert forall|s: int| 0 <= s < r.deques.len() implies ((#[trigger] r.deques[s]).len() > 0
            <==> 1 <= s <= next) by {
            let _ = first.deques[s];
        }
        assert forall|s: int| 1 <= s <= next implies (#[trigger] r.deques[s])[0].anchor_ts == lead by {
            let _ = first.deques[s];
        }
    } else {
        assert(r.deques =~= first.deques) by {
            assert(started(nfa, ev, first.deques, 0) == first.deques);
        }
        assert forall|s: int| 0 <= s < r.deques.len() implies ((#[trigger] r.deques[s]).len() > 0
            <==> 1 <= s <= next) by {
            let _ = first.deques[s];
        }
        assert forall|s: int| 1 <= s <= next implies (#[trigger] r.deques[s])[0].anchor_ts == lead by {
            let _ = first.deques[s];
        }
    }
}

/// The first-step events that are left after a match was consumed begin no new one
/// before the next event.
proof fn lemma_no_restart(m: StepModel, i: int, ts: i64)
    requires
        0 <= i < m.tracks.len(),
        forall|k: int| 0 <= k < m.step0.len() ==> (#[trigger] m.step0[k]).anchor_ts <= ts,
    ensures
        ({
            let r = completed(true, m, i, ts);
            &&& r.tracks == m.tracks.update(i, r.tracks[i])
            &&& r.tracks[i].current_step == 0
            &&& r.tracks[i].scan_from == ts
            &&& r.tracks[i].bindings == m.tracks[i].bindings
            &&& r.tracks[i].done == m.tracks[i].done
            &&& forall|k: int| 0 <= k < r.step0.len() ==> (#[trigger] r.step0[k]).anchor_ts <= ts
        }),
{
    let rest = step0_after(m.step0, ts);
    lemma_step0_after(m.step0, ts);
    assert forall|k: int| 0 <= k < rest.len() implies (#[trigger] rest[k]).anchor_ts <= ts by {
        assert(m.step0.contains(rest[k]));
    }
    lemma_next_found(rest, 0, ts, m.tracks[i].bindings);
    assert(next_anchor(rest, 0, ts, m.tracks[i].bindings) is None);
}

/// What the step counter's track does on an event: it advances by one step if the event
/// takes it on.
proof fn lemma_swept(s: StepSetup, sm: StepModel, ev: EventView, bindings: BindingValueCache)
    requires
        is_plain_chain(&s.nfa),
        sm.tracks.len() <= 1,
        steps_matched(sm) < s.nfa.accept_state,
        sm.tracks.len() == 1 ==> sm.tracks[0].bindings.len() == 0 && !sm.tracks[0].done && (
        sm.tracks[0].current_step > 0 ==> sm.tracks[0].last_step_ts < ev.ts),
    ensures
        swept(s, sm, 0, ev, bindings) == if steps_matched(sm) > 0 && fires(
            &s.nfa,
            ev,
            steps_matched(sm),
            0,
        ) {
            stepped(s, sm, 0, ev.ts)
        } else {
            sm
        },
{
    let nfa = &s.nfa;
    reveal_with_fuel(swept, 3);
    if sm.tracks.len() == 1 {
        let t = sm.tracks[0];
        let k = t.current_step as int;
        let _ = nfa.states@[k];
        lemma_all_survive(nfa, ev, k, Seq::empty());
        let (m1, stays) = visited(s, sm, 0, ev, bindings);
        super::step_counter::lemma_visited_len(s, sm, 0, ev, bindings);
        assert(stays);
        assert(swept(s, m1, 1, ev, bindings) == m1);
    }
}

/// What the step counter does with an event that may be a first step.
proof fn lemma_entered(s: StepSetup, sm: StepModel, ev: EventView, bindings: BindingValueCache)
    requires
        is_plain_chain(&s.nfa),
        s.limit >= 1,
        sm.tracks.len() <= 1,
        sm.tracks.len() == 1 ==> sm.tracks[0].bindings.len() == 0,
        ev.ts > i64::MIN,
    ensures
        with_step0(s, sm, ev, bindings) == if fires(&s.nfa, ev, 0, 0) && may_enter(
            s.entry_range,
            ev.ts,
        ) {
            entered(s, sm, ev.ts, Seq::empty())
        } else {
            sm
        },
        track_with(sm.tracks, Seq::empty(), 0) == if sm.tracks.len() == 1 {
            Some(0int)
        } else {
            None
        },
{
    let _ = s.nfa.states@[0];
    if sm.tracks.len() == 1 {
        assert(sm.tracks[0].bindings =~= Seq::empty());
    }
}

/// Waiting longer changes nothing.
proof fn lemma_later(n: NfaSetup, nm: NfaModel, sm: StepModel, now: i64, then_on: i64)
    requires
        in_step(n, nm, sm, now),
        now <= then_on,
    ensures
        in_step(n, nm, sm, then_on),
{
    assert forall|s: int, i: int| 0 <= s < nm.deques.len() && 0 <= i < nm.deques[s].len() implies (
    #[trigger] nm.deques[s][i]).last_step_ts <= then_on by {}
}

proof fn lemma_agree_event(
    n: NfaSetup,
    s: StepSetup,
    nm: NfaModel,
    sm: StepModel,
    ev: EventView,
    bindings: BindingValueCache,
    now: i64,
)
    requires
        same_setup(n, s),
        nm.completions == sm.completions,
        nm.dropped_count == 0,
        in_step(n, nm, sm, now),
        now < ev.ts,
        after_event(n, nm, ev).dropped_count == 0,
        n.match_all || nm.completions.len() == 0,
    ensures
        agree(n, s, after_event(n, nm, ev), after_step_event(s, sm, ev, bindings), ev.ts),
{
    let nfa = &n.nfa;
    let accept = nfa.accept_state as int;
    if !nfa.is_relevant(ev.event_type) {
        lemma_later(n, nm, sm, now, ev.ts);
    } else {
        let k = steps_matched(sm);
        let anchor = if sm.tracks.len() == 0 {
            0
        } else {
            sm.tracks[0].anchor_ts
        };
        lemma_advanced(n, nm, k, anchor, ev, now);
        let advanced = with_starts(nfa, n.entry_range, ev, propagated(nfa, ev, nm));
        let done = accepted(nfa, n.match_all, advanced);
        lemma_limited_drops(done.deques, done.dropped_count, n.limit);
        let nr = after_event(n, nm, ev);
        assert(nr.deques == done.deques);
        let on = k > 0 && fires(nfa, ev, k, 0);
        let starts = fires(nfa, ev, 0, 0) && may_enter(n.entry_range, ev.ts);
        let begin = k == 0 && starts;
        lemma_swept(s, sm, ev, bindings);
        let m1 = swept(s, sm, 0, ev, bindings);
        lemma_entered(s, m1, ev, bindings);
        let sr = after_step_event(s, sm, ev, bindings);
        assert(sr == with_step0(s, m1, ev, bindings));
        assert forall|i: int| 0 <= i < sm.step0.len() implies (#[trigger] sm.step0[i]).anchor_ts
            <= ev.ts by {}
        let next = if on || begin {
            k + 1
        } else {
            k
        };
        let _ = advanced.deques[accept];
        assert(advanced.deques[accept].len() > 0 <==> next == accept);
        if on {
            let t = sm.tracks[0];
            let step = (t.current_step + 1) as u8;
            let t1 = TrackView {
                current_step: step,
                last_step_ts: ev.ts,
                max_step_reached: farther(t.max_step_reached, step),
                ..t
            };
            let m2 = StepModel { tracks: sm.tracks.update(0, t1), ..sm };
            if next == accept {
                lemma_completing(n, s, advanced, m2, ev);
                assert(m1 == completed(s.match_all, m2, 0, ev.ts));
                assert(sr.completions == m1.completions);
                if n.match_all {
                    assert(sr == m1);
                }
            } else {
                assert(m1 == m2);
                lemma_kept(s, m1, ev);
            }
        } else if begin {
            let key = Seq::<super::bindings::BindingView>::empty();
            let kept = StepModel {
                step0: if sm.step0.len() < s.limit {
                    sm.step0.push(Step0View { anchor_ts: ev.ts, key })
                } else {
                    sm.step0
                },
                ..sm
            };
            let t = if sm.tracks.len() == 1 {
                started_track(sm.tracks[0], ev.ts)
            } else {
                started_track(fresh_track(key), ev.ts)
            };
            let m2 = StepModel { tracks: seq![t], active: one_more_u32(sm.active), ..kept };
            if sm.tracks.len() == 1 {
                assert(sm.tracks.update(0, t) =~= seq![t]);
            } else {
                assert(sm.tracks.push(t) =~= seq![t]);
            }
            assert forall|i: int| 0 <= i < m2.step0.len() implies (
            #[trigger] m2.step0[i]).anchor_ts <= ev.ts by {
                if i < sm.step0.len() {
                    let _ = sm.step0[i];
                }
            }
            if accept == 1 {
                lemma_completing(n, s, advanced, m2, ev);
            } else {
                assert(sr == m2);
            }
        } else {
            assert(m1 == sm);
            if k > 0 {
                lemma_kept(s, sm, ev);
            }
        }
    }
}

/// A first-step event that comes while a match is in progress is only remembered.
proof fn lemma_kept(s: StepSetup, m: StepModel, ev: EventView)
    requires
        m.tracks.len() == 1,
        m.tracks[0].bindings.len() == 0,
        m.tracks[0].current_step > 0,
        forall|k: int| 0 <= k < m.step0.len() ==> (#[trigger] m.step0[k]).anchor_ts <= ev.ts,
    ensures
        ({
            let r = entered(s, m, ev.ts, Seq::empty());
            &&& r.tracks == m.tracks
            &&& r.completions == m.completions
            &&& forall|k: int| 0 <= k < r.step0.len() ==> (#[trigger] r.step0[k]).anchor_ts <= ev.ts
        }),
{
    assert(m.tracks[0].bindings =~= Seq::empty());
    assert(track_with(m.tracks, Seq::empty(), 0) == Some(0int));
}

/// Both strategies complete a match in the same way.
proof fn lemma_completing(n: NfaSetup, s: StepSetup, advanced: NfaModel, m: StepModel, ev: EventView)
    requires
        same_setup(n, s),
        advanced.deques.len() == n.nfa.states@.len(),
        advanced.deques[n.nfa.accept_state as int].len() > 0,
        m.tracks.len() == 1,
        m.tracks[0].bindings.len() == 0,
        !m.tracks[0].done,
        advanced.deques[n.nfa.accept_state as int][0].anchor_ts == m.tracks[0].anchor_ts,
        advanced.deques[n.nfa.accept_state as int][0].last_step_ts == ev.ts,
        advanced.completions == m.completions,
        forall|k: int| 0 <= k < m.step0.len() ==> (#[trigger] m.step0[k]).anchor_ts <= ev.ts,
    ensures
        ({
            let done = accepted(&n.nfa, n.match_all, advanced);
            let r = completed(s.match_all, m, 0, ev.ts);
            &&& done.completions == r.completions
            &&& done.completions.len() > 0
            &&& done.deques.len() == advanced.deques.len()
            &&& n.match_all ==> in_step(n, done, r, ev.ts)
            &&& r.tracks.len() == 1
            &&& r.tracks[0].bindings.len() == 0
            &&& n.match_all ==> r.tracks[0].scan_from == ev.ts
            &&& !n.match_all ==> r.tracks[0].done
        }),
{
    let done = accepted(&n.nfa, n.match_all, advanced);
    let r = completed(s.match_all, m, 0, ev.ts);
    assert(done.completions =~= r.completions);
    if n.match_all {
        lemma_no_restart(m, 0, ev.ts);
        assert forall|x: int| 0 <= x < done.deques.len() implies (#[trigger] done.deques[x]).len()
            == 0 by {}
    }
}

/// Whether timestamps rise from row to row.
pub open spec fn rising(stamps: Seq<i64>) -> bool {
    forall|i: int, j: int| 0 <= i < j < stamps.len() ==> #[trigger] stamps[i] < #[trigger] stamps[j]
}

/// The time of the last row, or `now` if there is none.
pub open spec fn last_time(stamps: Seq<i64>, now: i64) -> i64 {
    if stamps.len() == 0 {
        now
    } else {
        stamps.last()
    }
}

/// Both strategies are at the same place with an entity of which nothing was seen.
pub proof fn theorem_agree_at_first(n: NfaSetup, s: StepSetup)
    requires
        same_setup(n, s),
    ensures
        agree(n, s, fresh_model(n.nfa.states@.len()), fresh_steps(), i64::MIN),
{
}

proof fn lemma_agree_rows(
    n: NfaSetup,
    s: StepSetup,
    nm: NfaModel,
    sm: StepModel,
    types: Seq<Option<Seq<char>>>,
    stamps: Seq<i64>,
    cache: PredicateCache,
    bindings: BindingValueCache,
    row: int,
    now: i64,
)
    requires
        same_setup(n, s),
        agree(n, s, nm, sm, now),
        rising(stamps),
        0 <= row <= stamps.len(),
        row < stamps.len() ==> now < stamps[row],
        row == stamps.len() ==> now == last_time(stamps, now),
        after_rows(n, nm, types, stamps, cache, row).dropped_count == 0,
    ensures
        agree(
            n,
            s,
            after_rows(n, nm, types, stamps, cache, row),
            after_step_rows(s, sm, types, stamps, cache, bindings, row),
            last_time(stamps, now),
        ),
    decreases stamps.len() - row,
{
    if row >= stamps.len() || (!n.match_all && nm.completions.len() > 0) {
    } else {
        let ts = stamps[row];
        match types[row] {
            Some(event_type) => {
                let ev = EventView { event_type, ts, row, cache };
                let nr = after_event(n, nm, ev);
                lemma_drops_grow_rows(n, nr, types, stamps, cache, row + 1);
                lemma_agree_event(n, s, nm, sm, ev, bindings, now);
                let sr = after_step_event(s, sm, ev, bindings);
                if row + 1 < stamps.len() {
                    assert(stamps[row] < stamps[row + 1]);
                }
                lemma_agree_rows(n, s, nr, sr, types, stamps, cache, bindings, row + 1, ts);
            },
            None => {
                lemma_later(n, nm, sm, now, ts);
                if row + 1 < stamps.len() {
                    assert(stamps[row] < stamps[row + 1]);
                }
                lemma_agree_rows(n, s, nm, sm, types, stamps, cache, bindings, row + 1, ts);
            },
        }
    }
}

/// On a plain chain both strategies report the same matches, batch by batch, as long as
/// timestamps rise and the automaton drops no candidate. Where they agreed before a
/// batch they agree after it.
pub proof fn theorem_strategies_agree(
    n: NfaSetup,
    s: StepSetup,
    nm: NfaModel,
    sm: StepModel,
    types: Seq<Option<Seq<char>>>,
    stamps: Seq<i64>,
    cache: PredicateCache,
    bindings: BindingValueCache,
    now: i64,
)
    requires
        same_setup(n, s),
        agree(n, s, nm, sm, now),
        rising(stamps),
        stamps.len() > 0 ==> now < stamps[0],
        after_rows(n, nm, types, stamps, cache, 0).dropped_count == 0,
    ensures
        after_rows(n, nm, types, stamps, cache, 0).completions == after_step_rows(
            s,
            sm,
            types,
            stamps,
            cache,
            bindings,
            0,
        ).completions,
        agree(
            n,
            s,
            after_rows(n, nm, types, stamps, cache, 0),
            after_step_rows(s, sm, types, stamps, cache, bindings, 0),
            last_time(stamps, now),
        ),
{
    lemma_agree_rows(n, s, nm, sm, types, stamps, cache, bindings, 0, now);
}

} // verus!
