//! What becomes of candidates and tracks that do not lead to a match.
//!
//! Where unfinished matches are wanted, a candidate is reported when its window passes,
//! when an event excludes it, when a match is consumed, and at the end of the entity.
//! Over the limit the oldest candidates are dropped.

use vstd::prelude::*;

use super::bindings::{BindingValueCache, BindingView};
use super::nfa::{CandidateEntry, EventView, NfaModel, NfaSetup, PartialView, accepted, after_event,
    candidate_count, current, drained, expired, finished, fires, lemma_count_after_pop, limited,
    losses, losses_down_to, oldest_front, outdated, partials_of, poisoned, propagated, total_count,
    with_starts};
use super::pattern::{CompiledNfa, TimeRange, may_enter};
use super::step_complete::{excludes, in_window, is_poison, lemma_excludes};
use super::step_counter::{StepModel, StepSetup, TrackView, finished_steps, open_tracks, rebound,
    visited};

verus! {

/// An event takes a transition if it has the type of the transition and every predicate of
/// it holds on the event's row. It excludes what waits in a state if it has the type of a
/// poison transition of the state and every predicate of that holds. A match may begin
/// from the start of the entry range to before its end.
pub proof fn theorem_event_meaning(
    nfa: &CompiledNfa,
    ev: EventView,
    s: int,
    t: int,
    range: Option<TimeRange>,
)
    ensures
        fires(nfa, ev, s, t) <==> nfa.states@[s].transitions@[t].event_type@ == ev.event_type
            && forall|p: int|
            0 <= p < nfa.states@[s].transitions@[t].predicates@.len() ==> #[trigger] ev.cache.holds(
                nfa.forward_index(s, t, p),
                ev.row,
            ),
        poisoned(nfa, ev, s) <==> exists|q: int|
            0 <= q < nfa.states@[s].poison_transitions@.len() && #[trigger] is_poison(nfa, ev, s, q),
        may_enter(range, ev.ts) <==> (range is Some ==> range->0.start <= ev.ts && ev.ts
            < range->0.end),
{
    lemma_excludes(nfa, ev, s);
}

/// How a candidate of a state is reported.
pub open spec fn report_of(nfa: &CompiledNfa, s: int, c: CandidateEntry) -> PartialView {
    PartialView {
        anchor_ts: c.anchor_ts,
        step_reached: nfa.state_to_step@[s],
        bindings: Seq::empty(),
    }
}

/// How many candidates are in the states before `s`.
pub open spec fn ahead_of(deques: Seq<Seq<CandidateEntry>>, s: int) -> int
    decreases s,
{
    if s <= 0 {
        0
    } else {
        ahead_of(deques, s - 1) + deques[s - 1].len()
    }
}

proof fn lemma_drained(deques: Seq<Seq<CandidateEntry>>, steps: Seq<u8>, n: int)
    requires
        0 <= n <= deques.len(),
    ensures
        drained(deques, steps, n).len() == ahead_of(deques, n),
        forall|s: int, i: int|
            0 <= s < n && 0 <= i < deques[s].len() ==> {
                let place = ahead_of(deques, s) + i;
                &&& 0 <= place < ahead_of(deques, n)
                &&& drained(deques, steps, n)[place] == (PartialView {
                    anchor_ts: (#[trigger] deques[s][i]).anchor_ts,
                    step_reached: steps[s],
                    bindings: Seq::empty(),
                })
            },
    decreases n,
{
    if n > 0 {
        lemma_drained(deques, steps, n - 1);
        let before = drained(deques, steps, n - 1);
        let all = drained(deques, steps, n);
        assert forall|s: int, i: int| 0 <= s < n && 0 <= i < deques[s].len() implies {
            let place = ahead_of(deques, s) + i;
            &&& 0 <= place < ahead_of(deques, n)
            &&& all[place] == (PartialView {
                anchor_ts: (#[trigger] deques[s][i]).anchor_ts,
                step_reached: steps[s],
                bindings: Seq::empty(),
            })
        } by {
            if s == n - 1 {
                assert(ahead_of(deques, s) == before.len());
                assert(all[before.len() + i] == partials_of(deques[n - 1], steps[n - 1])[i]);
            }
        }
    }
}

/// At the end of an entity every candidate is reported where unfinished matches are
/// wanted: behind what was reported before, by state and then in the order of the
/// candidates, each with its first step and the step that its state stands for. Where
/// they are not wanted nothing is.
pub proof fn theorem_finish_reports(nfa: &CompiledNfa, m: NfaModel)
    ensures
        finished(nfa, m).completions == m.completions,
        !nfa.emit_all ==> finished(nfa, m).partials == m.partials,
        nfa.emit_all ==> {
            let out = finished(nfa, m).partials;
            let n = m.partials.len();
            &&& out.len() == n + ahead_of(m.deques, m.deques.len() as int)
            &&& out.take(n as int) == m.partials
            &&& forall|s: int, i: int|
                0 <= s < m.deques.len() && 0 <= i < m.deques[s].len() ==> out[n + ahead_of(
                    m.deques,
                    s,
                ) + i] == report_of(nfa, s, #[trigger] m.deques[s][i])
        },
{
    lemma_drained(m.deques, nfa.state_to_step@, m.deques.len() as int);
    if nfa.emit_all {
        let out = finished(nfa, m).partials;
        let n = m.partials.len();
        let rest = drained(m.deques, nfa.state_to_step@, m.deques.len() as int);
        assert(out.take(n as int) =~= m.partials);
        assert forall|s: int, i: int|
            0 <= s < m.deques.len() && 0 <= i < m.deques[s].len() implies out[n + ahead_of(
            m.deques,
            s,
        ) + i] == report_of(nfa, s, #[trigger] m.deques[s][i]) by {
            let place = ahead_of(m.deques, s) + i;
            assert(report_of(nfa, s, m.deques[s][i]) == rest[place]);
            assert(0 <= place < rest.len());
            assert(out[n + place] == rest[place]);
        }
    }
}

/// Whether an event ends what a candidate of a state waits for: its window has passed, or
/// the event excludes the state.
pub open spec fn is_ended(nfa: &CompiledNfa, ev: EventView, s: int, c: CandidateEntry) -> bool {
    !in_window(nfa, c.anchor_ts, ev.ts) || excludes(nfa, ev, s)
}

proof fn lemma_lost(nfa: &CompiledNfa, ev: EventView, s: int, d: Seq<CandidateEntry>, c: CandidateEntry)
    requires
        nfa.emit_all,
    ensures
        d.contains(c) && is_ended(nfa, ev, s, c) ==> losses(nfa, ev, s, d).contains(
            report_of(nfa, s, c),
        ),
{
    if d.contains(c) && is_ended(nfa, ev, s, c) {
        lemma_excludes(nfa, ev, s);
        let step = nfa.state_to_step@[s];
        let i = choose|i: int| 0 <= i < d.len() && d[i] == c;
        let old = outdated(nfa, ev, d);
        let kept = current(nfa, ev, d);
        let all = losses(nfa, ev, s, d);
        if !in_window(nfa, c.anchor_ts, ev.ts) {
            let w = nfa.global_window->0;
            d.lemma_filter_contains(|x: CandidateEntry| expired(ev.ts, x.anchor_ts, w), i);
            let k = choose|k: int| 0 <= k < old.len() && old[k] == c;
            assert(partials_of(old, step)[k] == report_of(nfa, s, c));
            assert(all[k] == report_of(nfa, s, c));
        } else {
            if let Some(w) = nfa.global_window {
                d.lemma_filter_contains(|x: CandidateEntry| !expired(ev.ts, x.anchor_ts, w), i);
            }
            let k = choose|k: int| 0 <= k < kept.len() && kept[k] == c;
            assert(partials_of(kept, step)[k] == report_of(nfa, s, c));
            assert(all[old.len() + k] == report_of(nfa, s, c));
        }
    }
}

proof fn lemma_only_lost(nfa: &CompiledNfa, ev: EventView, s: int, d: Seq<CandidateEntry>, k: int)
    requires
        0 <= k < losses(nfa, ev, s, d).len(),
    ensures
        exists|i: int|
            0 <= i < d.len() && is_ended(nfa, ev, s, #[trigger] d[i]) && losses(nfa, ev, s, d)[k]
                == report_of(nfa, s, d[i]),
{
    lemma_excludes(nfa, ev, s);
    let old = outdated(nfa, ev, d);
    let kept = current(nfa, ev, d);
    let c = if k < old.len() {
        old[k]
    } else {
        kept[k - old.len()]
    };
    assert(losses(nfa, ev, s, d)[k] == report_of(nfa, s, c));
    if let Some(w) = nfa.global_window {
        let gone = |x: CandidateEntry| expired(ev.ts, x.anchor_ts, w);
        let stays = |x: CandidateEntry| !expired(ev.ts, x.anchor_ts, w);
        if k < old.len() {
            assert(old.contains(c));
            d.lemma_filter_contains_rev(gone, c);
            d.lemma_filter_pred(gone, k);
        } else {
            assert(kept.contains(c));
            d.lemma_filter_contains_rev(stays, c);
        }
    }
    let i = choose|i: int| 0 <= i < d.len() && d[i] == c;
    assert(is_ended(nfa, ev, s, d[i]));
}

proof fn lemma_lost_from(
    nfa: &CompiledNfa,
    ev: EventView,
    deques: Seq<Seq<CandidateEntry>>,
    lo: int,
    s: int,
    i: int,
)
    requires
        nfa.emit_all,
        0 <= lo <= s < deques.len(),
        s != nfa.accept_state as int,
        0 <= i < deques[s].len(),
        is_ended(nfa, ev, s, deques[s][i]),
    ensures
        losses_down_to(nfa, ev, deques, lo).contains(report_of(nfa, s, deques[s][i])),
    decreases deques.len() - lo,
{
    let all = losses_down_to(nfa, ev, deques, lo);
    let more = losses_down_to(nfa, ev, deques, lo + 1);
    let r = report_of(nfa, s, deques[s][i]);
    if lo < s {
        lemma_lost_from(nfa, ev, deques, lo + 1, s, i);
        let k = choose|k: int| 0 <= k < more.len() && more[k] == r;
        assert(all[k] == r);
    } else {
        assert(deques[s].contains(deques[s][i]));
        lemma_lost(nfa, ev, s, deques[s], deques[s][i]);
        let here = losses(nfa, ev, s, deques[s]);
        let k = choose|k: int| 0 <= k < here.len() && here[k] == r;
        assert(all[more.len() + k] == r);
    }
}

/// Whether a report is of a candidate whose waiting an event has ended.
pub open spec fn is_of_ended(
    nfa: &CompiledNfa,
    ev: EventView,
    deques: Seq<Seq<CandidateEntry>>,
    r: PartialView,
) -> bool {
    exists|s: int, i: int|
        0 <= s < deques.len() && 0 <= i < deques[s].len() && is_ended(
            nfa,
            ev,
            s,
            #[trigger] deques[s][i],
        ) && r == report_of(nfa, s, deques[s][i])
}

proof fn lemma_only_lost_from(
    nfa: &CompiledNfa,
    ev: EventView,
    deques: Seq<Seq<CandidateEntry>>,
    lo: int,
    k: int,
)
    requires
        0 <= lo,
        0 <= k < losses_down_to(nfa, ev, deques, lo).len(),
    ensures
        is_of_ended(nfa, ev, deques, losses_down_to(nfa, ev, deques, lo)[k]),
    decreases deques.len() - lo,
{
    let more = losses_down_to(nfa, ev, deques, lo + 1);
    if lo < deques.len() {
        if k < more.len() {
            lemma_only_lost_from(nfa, ev, deques, lo + 1, k);
        } else {
            lemma_only_lost(nfa, ev, lo, deques[lo], k - more.len());
            let d = deques[lo];
            let i = choose|i: int|
                0 <= i < d.len() && is_ended(nfa, ev, lo, #[trigger] d[i]) && losses(
                    nfa,
                    ev,
                    lo,
                    d,
                )[k - more.len()] == report_of(nfa, lo, d[i]);
            assert(is_ended(nfa, ev, lo, deques[lo][i]));
        }
    }
}

proof fn lemma_no_losses(nfa: &CompiledNfa, ev: EventView, deques: Seq<Seq<CandidateEntry>>, lo: int)
    requires
        !nfa.emit_all,
        0 <= lo,
    ensures
        losses_down_to(nfa, ev, deques, lo).len() == 0,
    decreases deques.len() - lo,
{
    if lo < deques.len() {
        lemma_no_losses(nfa, ev, deques, lo + 1);
    }
}

/// Where unfinished matches are wanted, an event reports every candidate whose window has
/// passed or which it excludes, with its first step and the step that its state stands
/// for. It reports nothing else, but where it completes a match and every match is wanted:
/// then what waits is reported too. Where unfinished matches are not wanted nothing is
/// reported.
pub proof fn theorem_losses_reported(setup: NfaSetup, m: NfaModel, ev: EventView)
    requires
        setup.nfa.is_relevant(ev.event_type),
    ensures
        ({
            let after = after_event(setup, m, ev);
            let n = m.partials.len() as int;
            &&& !setup.nfa.emit_all ==> after.partials == m.partials
            &&& setup.nfa.emit_all ==> {
                &&& after.partials.len() >= n
                &&& after.partials.take(n) == m.partials
                &&& forall|s: int, i: int|
                    0 <= s < m.deques.len() && s != setup.nfa.accept_state as int && 0 <= i
                        < m.deques[s].len() && is_ended(
                        &setup.nfa,
                        ev,
                        s,
                        #[trigger] m.deques[s][i],
                    ) ==> after.partials.skip(n).contains(
                        report_of(&setup.nfa, s, m.deques[s][i]),
                    )
                &&& after.completions == m.completions || !setup.match_all ==> forall|k: int|
                    n <= k < after.partials.len() ==> is_of_ended(
                        &setup.nfa,
                        ev,
                        m.deques,
                        #[trigger] after.partials[k],
                    )
            }
        }),
{
    let nfa = &setup.nfa;
    let n = m.partials.len() as int;
    let after = after_event(setup, m, ev);
    let lost = losses_down_to(nfa, ev, m.deques, 0);
    let done = accepted(
        nfa,
        setup.match_all,
        with_starts(nfa, setup.entry_range, ev, propagated(nfa, ev, m)),
    );
    assert(after.partials == done.partials);
    if nfa.emit_all {
        assert(after.partials.take(n) =~= m.partials);
        assert forall|s: int, i: int|
            0 <= s < m.deques.len() && s != nfa.accept_state as int && 0 <= i < m.deques[s].len()
                && is_ended(nfa, ev, s, #[trigger] m.deques[s][i]) implies after.partials.skip(
            n,
        ).contains(report_of(nfa, s, m.deques[s][i])) by {
            let r = report_of(nfa, s, m.deques[s][i]);
            lemma_lost_from(nfa, ev, m.deques, 0, s, i);
            let k = choose|k: int| 0 <= k < lost.len() && lost[k] == r;
            assert(after.partials.skip(n)[k] == r);
        }
        if after.completions == m.completions || !setup.match_all {
            assert(after.partials =~= m.partials + lost) by {
                if after.completions == m.completions {
                    assert(after.completions.len() == m.completions.len());
                }
            }
            assert forall|k: int| n <= k < after.partials.len() implies is_of_ended(
                nfa,
                ev,
                m.deques,
                #[trigger] after.partials[k],
            ) by {
                lemma_only_lost_from(nfa, ev, m.deques, 0, k - n);
            }
        }
    } else {
        lemma_no_losses(nfa, ev, m.deques, 0);
        assert(after.partials =~= m.partials);
    }
}

/// Whether the candidates of every state are in the order of their first steps.
pub open spec fn all_in_order(deques: Seq<Seq<CandidateEntry>>) -> bool {
    forall|s: int, i: int, j: int|
        0 <= s < deques.len() && 0 <= i <= j < deques[s].len() ==> (
        #[trigger] deques[s][i]).anchor_ts <= (#[trigger] deques[s][j]).anchor_ts
}

/// Whether what is left is an end of what was there, in every state.
pub open spec fn are_ends(left: Seq<Seq<CandidateEntry>>, all: Seq<Seq<CandidateEntry>>) -> bool {
    &&& left.len() == all.len()
    &&& forall|s: int|
        0 <= s < all.len() ==> (#[trigger] left[s]).len() <= all[s].len() && left[s]
            == all[s].skip(all[s].len() - left[s].len())
}

/// Whether every candidate that is gone began no later than any that is left.
pub open spec fn oldest_gone(left: Seq<Seq<CandidateEntry>>, all: Seq<Seq<CandidateEntry>>) -> bool {
    forall|s: int, i: int, t: int, j: int|
        0 <= s < all.len() && 0 <= i < all[s].len() - left[s].len() && 0 <= t < left.len() && 0 <= j
            < left[t].len() ==> (#[trigger] all[s][i]).anchor_ts <= (
        #[trigger] left[t][j]).anchor_ts
}

proof fn lemma_oldest(deques: Seq<Seq<CandidateEntry>>, n: int)
    requires
        0 <= n <= deques.len(),
    ensures
        match oldest_front(deques, n) {
            Some(i) => 0 <= i < n && deques[i].len() > 0 && forall|s: int|
                0 <= s < n && (#[trigger] deques[s]).len() > 0 ==> deques[i][0].anchor_ts
                    <= deques[s][0].anchor_ts,
            None => forall|s: int| 0 <= s < n ==> (#[trigger] deques[s]).len() == 0,
        },
    decreases n,
{
    if n > 0 {
        lemma_oldest(deques, n - 1);
    }
}

proof fn lemma_empty_count(deques: Seq<Seq<CandidateEntry>>, n: int)
    requires
        0 <= n <= deques.len(),
        forall|s: int| 0 <= s < n ==> (#[trigger] deques[s]).len() == 0,
    ensures
        candidate_count(deques, n) == 0,
    decreases n,
{
    if n > 0 {
        lemma_empty_count(deques, n - 1);
    }
}

/// Over the limit as many candidates are dropped as there are too many, each is counted,
/// and, where the candidates of every state are in the order of their first steps, those
/// that began first are dropped.
pub proof fn theorem_oldest_dropped(deques: Seq<Seq<CandidateEntry>>, dropped: u64, limit: nat)
    ensures
        ({
            let (left, count) = limited(deques, dropped, limit);
            let total = total_count(deques);
            let over = if total > limit {
                total - limit
            } else {
                0
            };
            &&& are_ends(left, deques)
            &&& total_count(left) == total - over
            &&& dropped + over <= u64::MAX ==> count as int == dropped + over
            &&& all_in_order(deques) ==> oldest_gone(left, deques)
        }),
    decreases total_count(deques),
{
    let n = deques.len() as int;
    let (left, count) = limited(deques, dropped, limit);
    lemma_oldest(deques, n);
    if total_count(deques) > limit {
        if oldest_front(deques, n) is None {
            lemma_empty_count(deques, n);
        }
        let i = oldest_front(deques, n)->0;
        lemma_count_after_pop(deques, i, n);
        let next = deques.update(i, deques[i].drop_first());
        theorem_oldest_dropped(next, super::nfa::one_more(dropped), limit);
        assert forall|s: int| 0 <= s < deques.len() implies (#[trigger] left[s]).len()
            <= deques[s].len() && left[s] == deques[s].skip(deques[s].len() - left[s].len()) by {
            assert(left[s].len() <= next[s].len());
            if s == i {
                assert(left[s] =~= deques[s].skip(deques[s].len() - left[s].len()));
            }
        }
        if all_in_order(deques) {
            assert(all_in_order(next)) by {
                assert forall|s: int, x: int, y: int|
                    0 <= s < next.len() && 0 <= x <= y < next[s].len() implies (
                #[trigger] next[s][x]).anchor_ts <= (#[trigger] next[s][y]).anchor_ts by {
                    if s == i {
                        assert(deques[i][x + 1].anchor_ts <= deques[i][y + 1].anchor_ts);
                    } else {
                        assert(deques[s][x].anchor_ts <= deques[s][y].anchor_ts);
                    }
                }
            }
            assert forall|s: int, x: int, t: int, y: int|
                0 <= s < deques.len() && 0 <= x < deques[s].len() - left[s].len() && 0 <= t
                    < left.len() && 0 <= y < left[t].len() implies (
            #[trigger] deques[s][x]).anchor_ts <= (#[trigger] left[t][y]).anchor_ts by {
                if s == i && x == 0 {
                    let z = deques[t].len() - left[t].len() + y;
                    assert(left[t][y] == deques[t][z]);
                    assert(deques[i][0].anchor_ts <= deques[t][0].anchor_ts);
                    assert(deques[t][0].anchor_ts <= deques[t][z].anchor_ts);
                } else if s == i {
                    assert(next[s][x - 1] == deques[s][x]);
                } else {
                    assert(next[s][x] == deques[s][x]);
                }
            }
        }
    } else {
        assert(left == deques);
        assert forall|s: int| 0 <= s < deques.len() implies (#[trigger] left[s]).len()
            <= deques[s].len() && left[s] == deques[s].skip(deques[s].len() - left[s].len()) by {
            assert(deques[s].skip(0) =~= deques[s]);
        }
    }
}

/// Whether a report is that of a track: its first step and the farthest step it reached.
pub open spec fn is_report_of(r: PartialView, t: TrackView) -> bool {
    &&& r.anchor_ts == t.anchor_ts
    &&& r.step_reached == t.max_step_reached
    &&& r.bindings == Seq::<BindingView>::empty()
}

/// A track in progress that an event excludes is dropped. A track that is dropped is
/// reported where unfinished matches are wanted, with the anchor that it has then and the
/// farthest step it reached. A track that stays is not reported.
pub proof fn theorem_track_losses(
    setup: StepSetup,
    m: StepModel,
    i: int,
    ev: EventView,
    bindings: BindingValueCache,
)
    requires
        0 <= i < m.tracks.len(),
        !m.tracks[i].done,
        m.tracks[i].current_step > 0,
    ensures
        ({
            let (m1, stays) = visited(setup, m, i, ev, bindings);
            &&& excludes(&setup.nfa, ev, m.tracks[i].current_step as int) ==> !stays
            &&& stays || !setup.nfa.emit_all ==> m1.partials == m.partials
            &&& !stays && setup.nfa.emit_all ==> {
                &&& m1.partials.len() == m.partials.len() + 1
                &&& m1.partials.take(m.partials.len() as int) == m.partials
                &&& is_report_of(m1.partials.last(), m1.tracks[i])
                &&& m1.tracks[i].max_step_reached == m.tracks[i].max_step_reached
                &&& in_window(&setup.nfa, m.tracks[i].anchor_ts, ev.ts) || !excludes(
                    &setup.nfa,
                    ev,
                    m.tracks[i].current_step as int,
                ) ==> m1.tracks[i].anchor_ts == m.tracks[i].anchor_ts
            }
            &&& !stays ==> m1.completions == m.completions
        }),
{
    let nfa = &setup.nfa;
    lemma_excludes(nfa, ev, m.tracks[i].current_step as int);
    let (m0, valid) = rebound(nfa, m, i, ev.ts);
    let (m1, stays) = visited(setup, m, i, ev, bindings);
    if !stays && nfa.emit_all {
        assert(m1.partials.take(m.partials.len() as int) =~= m.partials);
    }
}

proof fn lemma_open_tracks(tracks: Seq<TrackView>, n: int)
    requires
        0 <= n <= tracks.len(),
    ensures
        ({
            let waiting = tracks.take(n).filter(|t: TrackView| t.current_step > 0 && !t.done);
            let out = open_tracks(tracks, n);
            &&& out.len() == waiting.len()
            &&& forall|k: int| 0 <= k < out.len() ==> is_report_of(#[trigger] out[k], waiting[k])
        }),
    decreases n,
{
    reveal(Seq::filter);
    if n > 0 {
        lemma_open_tracks(tracks, n - 1);
        assert(tracks.take(n).drop_last() =~= tracks.take(n - 1));
    }
}

/// At the end of an entity every track in progress is reported where unfinished matches
/// are wanted, in the order of the tracks, behind what was reported before. Completed
/// matches stay as they are.
pub proof fn theorem_tracks_finish(nfa: &CompiledNfa, m: StepModel)
    ensures
        finished_steps(nfa, m).completions == m.completions,
        !nfa.emit_all ==> finished_steps(nfa, m).partials == m.partials,
        nfa.emit_all ==> {
            let out = finished_steps(nfa, m).partials;
            let n = m.partials.len() as int;
            let waiting = m.tracks.filter(|t: TrackView| t.current_step > 0 && !t.done);
            &&& out.len() == n + waiting.len()
            &&& out.take(n) == m.partials
            &&& forall|k: int| 0 <= k < waiting.len() ==> is_report_of(out[n + k], #[trigger] waiting[k])
        },
{
    lemma_open_tracks(m.tracks, m.tracks.len() as int);
    assert(m.tracks.take(m.tracks.len() as int) =~= m.tracks);
    if nfa.emit_all {
        let out = finished_steps(nfa, m).partials;
        let n = m.partials.len() as int;
        let waiting = m.tracks.filter(|t: TrackView| t.current_step > 0 && !t.done);
        let rest = open_tracks(m.tracks, m.tracks.len() as int);
        assert(out.take(n) =~= m.partials);
        assert forall|k: int| 0 <= k < waiting.len() implies is_report_of(
            out[n + k],
            #[trigger] waiting[k],
        ) by {
            assert(out[n + k] == rest[k]);
        }
    }
}

} // verus!
