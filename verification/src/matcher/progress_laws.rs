//! How far matches have got, how many a track has completed, and where it goes on.

use vstd::prelude::*;

use super::bindings::{BindingValueCache, BindingView};
use super::nfa::{CandidateEntry, EventView, NfaModel, NfaSetup, accepted, after_event,
    anchor_position, fires, lemma_anchor_position, may_start, occupied_step, propagated,
    started_step, with_candidate, with_starts};
use super::pattern::CompiledNfa;
use super::step_counter::{Step0View, StepModel, StepSetup, after_step_event, completed,
    next_anchor, step0_after, visited};

verus! {

/// Whether a match begins with an event, by the `k`-th way to begin.
pub open spec fn is_begun(setup: NfaSetup, m: NfaModel, ev: EventView, k: int) -> bool {
    &&& fires(&setup.nfa, ev, 0, k)
    &&& may_start(setup.entry_range, m.scan_from, ev.ts)
}

/// Whether a match is in a state after an event, or was for a moment: it waits there, it
/// has been completed there, or it has begun there.
pub open spec fn is_reached(
    setup: NfaSetup,
    m: NfaModel,
    ev: EventView,
    after: NfaModel,
    s: int,
) -> bool {
    ||| 0 <= s < after.deques.len() && after.deques[s].len() > 0
    ||| s == setup.nfa.accept_state && after.completions.len() > m.completions.len()
    ||| exists|k: int|
        0 <= k < setup.nfa.states@[0].transitions@.len() && #[trigger] is_begun(setup, m, ev, k)
            && setup.nfa.states@[0].transitions@[k].target == s
}

proof fn lemma_started_step(nfa: &CompiledNfa, ev: EventView, step: u8, k: int)
    ensures
        started_step(nfa, ev, step, k) >= step,
        forall|j: int|
            0 <= j < k && #[trigger] fires(nfa, ev, 0, j) ==> started_step(nfa, ev, step, k)
                >= nfa.state_to_step@[nfa.states@[0].transitions@[j].target as int],
        started_step(nfa, ev, step, k) > step ==> exists|j: int|
            0 <= j < k && #[trigger] fires(nfa, ev, 0, j) && started_step(nfa, ev, step, k)
                == nfa.state_to_step@[nfa.states@[0].transitions@[j].target as int],
    decreases k,
{
    if k > 0 {
        lemma_started_step(nfa, ev, step, k - 1);
    }
}

proof fn lemma_occupied_step(
    nfa: &CompiledNfa,
    deques: Seq<Seq<CandidateEntry>>,
    step: u8,
    n: int,
)
    ensures
        occupied_step(nfa, deques, step, n) >= step,
        forall|s: int|
            0 <= s < n && (#[trigger] deques[s]).len() > 0 ==> occupied_step(nfa, deques, step, n)
                >= nfa.state_to_step@[s],
        occupied_step(nfa, deques, step, n) > step ==> exists|s: int|
            0 <= s < n && (#[trigger] deques[s]).len() > 0 && occupied_step(nfa, deques, step, n)
                == nfa.state_to_step@[s],
    decreases n,
{
    if n > 0 {
        lemma_occupied_step(nfa, deques, step, n - 1);
    }
}

/// The step reached never goes back. It is at least that of every state that a match is in
/// after an event or was for a moment, and where it goes up it is that of such a state.
pub proof fn theorem_progress(setup: NfaSetup, m: NfaModel, ev: EventView)
    ensures
        ({
            let after = after_event(setup, m, ev);
            let steps = setup.nfa.state_to_step@;
            &&& after.max_step_reached >= m.max_step_reached
            &&& setup.nfa.is_relevant(ev.event_type) ==> forall|s: int| #[trigger]
                is_reached(setup, m, ev, after, s) ==> after.max_step_reached >= steps[s]
            &&& after.max_step_reached > m.max_step_reached ==> exists|s: int| #[trigger]
                is_reached(setup, m, ev, after, s) && after.max_step_reached == steps[s]
        }),
{
    let nfa = &setup.nfa;
    let after = after_event(setup, m, ev);
    let steps = nfa.state_to_step@;
    if nfa.is_relevant(ev.event_type) {
        let m1 = propagated(nfa, ev, m);
        let m2 = with_starts(nfa, setup.entry_range, ev, m1);
        let m3 = accepted(nfa, setup.match_all, m2);
        let k = nfa.states@[0].transitions@.len() as int;
        lemma_started_step(nfa, ev, m.max_step_reached, k);
        lemma_occupied_step(nfa, after.deques, m3.max_step_reached, after.deques.len() as int);
        assert(after.completions == m3.completions);
        assert forall|s: int| #[trigger] is_reached(setup, m, ev, after, s) implies
            after.max_step_reached >= steps[s] by {
            if exists|j: int|
                0 <= j < k && #[trigger] is_begun(setup, m, ev, j)
                    && nfa.states@[0].transitions@[j].target == s {
                let j = choose|j: int|
                    0 <= j < k && #[trigger] is_begun(setup, m, ev, j)
                        && nfa.states@[0].transitions@[j].target == s;
                assert(fires(nfa, ev, 0, j));
            }
        }
        if after.max_step_reached > m.max_step_reached {
            if after.max_step_reached > m3.max_step_reached {
                let s = choose|s: int|
                    0 <= s < after.deques.len() && (#[trigger] after.deques[s]).len() > 0
                        && after.max_step_reached == steps[s];
                assert(is_reached(setup, m, ev, after, s));
            } else if m3.max_step_reached > m2.max_step_reached {
                assert(is_reached(setup, m, ev, after, nfa.accept_state as int));
            } else {
                let j = choose|j: int|
                    0 <= j < k && #[trigger] fires(nfa, ev, 0, j) && m2.max_step_reached
                        == steps[nfa.states@[0].transitions@[j].target as int];
                assert(is_begun(setup, m, ev, j));
                assert(is_reached(
                    setup,
                    m,
                    ev,
                    after,
                    nfa.states@[0].transitions@[j].target as int,
                ));
            }
        }
    }
}

/// A track counts the matches that it completes, as far as the counter goes, and an event
/// completes at most one of them. What one track does leaves the others as they are.
pub proof fn theorem_match_counted(
    setup: StepSetup,
    m: StepModel,
    i: int,
    ev: EventView,
    bindings: BindingValueCache,
)
    requires
        0 <= i < m.tracks.len(),
    ensures
        ({
            let after = visited(setup, m, i, ev, bindings).0;
            let more = after.completions.len() - m.completions.len();
            let total = m.tracks[i].match_count + more;
            &&& 0 <= more <= 1
            &&& after.completions.take(m.completions.len() as int) == m.completions
            &&& after.tracks.len() == m.tracks.len()
            &&& after.tracks[i].match_count == (if total <= 0xffff_ffff {
                total
            } else {
                0xffff_ffff
            })
            &&& after.tracks[i].bindings == m.tracks[i].bindings
            &&& forall|j: int|
                0 <= j < m.tracks.len() && j != i ==> #[trigger] after.tracks[j] == m.tracks[j]
        }),
{
    let after = visited(setup, m, i, ev, bindings).0;
    assert(after.completions.take(m.completions.len() as int) =~= m.completions);
}

/// Whether a track can begin again with a remembered first step once a match was completed:
/// the step is later than the match, and has the bound values of the track where it has any.
pub open spec fn begins_again(e: Step0View, key: Seq<BindingView>, final_ts: i64) -> bool {
    e.anchor_ts > final_ts && (key.len() == 0 || e.key == key)
}

proof fn lemma_next_anchor(d: Seq<Step0View>, i: int, final_ts: i64, key: Seq<BindingView>)
    requires
        0 <= i,
    ensures
        match next_anchor(d, i, final_ts, key) {
            Some(a) => exists|k: int|
                i <= k < d.len() && (#[trigger] d[k]).anchor_ts == a && begins_again(
                    d[k],
                    key,
                    final_ts,
                ) && forall|x: int| i <= x < k ==> !begins_again(#[trigger] d[x], key, final_ts),
            None => forall|x: int|
                i <= x < d.len() ==> !begins_again(#[trigger] d[x], key, final_ts),
        },
    decreases d.len() - i,
{
    if i < d.len() {
        if begins_again(d[i], key, final_ts) {
            assert(d[i].anchor_ts == d[i].anchor_ts);
        } else {
            lemma_next_anchor(d, i + 1, final_ts, key);
        }
    }
}

/// A completed match is listed with its first and its last time. Where only the first match
/// is wanted the track is done with it. Else the first steps up to its end are forgotten,
/// and the track begins again with one that is left and has its bound values, or waits
/// where there is none.
pub proof fn theorem_restart(match_all: bool, m: StepModel, i: int, final_ts: i64)
    requires
        0 <= i < m.tracks.len(),
    ensures
        ({
            let t = m.tracks[i];
            let after = completed(match_all, m, i, final_ts);
            let u = after.tracks[i];
            &&& after.completions.len() == m.completions.len() + 1
            &&& after.completions.last().anchor_ts == t.anchor_ts
            &&& after.completions.last().final_ts == final_ts
            &&& !match_all ==> u.done && after.step0 == m.step0
            &&& match_all ==> {
                &&& u.done == t.done
                &&& u.scan_from == final_ts
                &&& forall|e: Step0View| #[trigger]
                    after.step0.contains(e) <==> m.step0.contains(e) && e.anchor_ts > final_ts
                &&& u.current_step == 1 || u.current_step == 0
                &&& u.current_step == 1 <==> exists|e: Step0View| #[trigger]
                    m.step0.contains(e) && begins_again(e, t.bindings, final_ts)
                &&& u.current_step == 1 ==> u.last_step_ts == u.anchor_ts && exists|e: Step0View|
                    #[trigger]
                    m.step0.contains(e) && begins_again(e, t.bindings, final_ts) && e.anchor_ts
                        == u.anchor_ts
            }
        }),
{
    let t = m.tracks[i];
    if match_all {
        let after = completed(match_all, m, i, final_ts);
        let keep = |e: Step0View| e.anchor_ts > final_ts;
        let d = step0_after(m.step0, final_ts);
        assert forall|e: Step0View| #[trigger] d.contains(e) <==> m.step0.contains(e) && e.anchor_ts
            > final_ts by {
            if d.contains(e) {
                m.step0.lemma_filter_contains_rev(keep, e);
                let x = choose|x: int| 0 <= x < d.len() && d[x] == e;
                m.step0.lemma_filter_pred(keep, x);
            }
            if m.step0.contains(e) && e.anchor_ts > final_ts {
                let x = choose|x: int| 0 <= x < m.step0.len() && m.step0[x] == e;
                m.step0.lemma_filter_contains(keep, x);
            }
        }
        lemma_next_anchor(d, 0, final_ts, t.bindings);
        match next_anchor(d, 0, final_ts, t.bindings) {
            Some(a) => {
                let k = choose|k: int|
                    0 <= k < d.len() && (#[trigger] d[k]).anchor_ts == a && begins_again(
                        d[k],
                        t.bindings,
                        final_ts,
                    );
                assert(d.contains(d[k]));
                assert(m.step0.contains(d[k]));
            },
            None => {
                assert forall|e: Step0View| #[trigger] m.step0.contains(e) implies !begins_again(
                    e,
                    t.bindings,
                    final_ts,
                ) by {
                    if begins_again(e, t.bindings, final_ts) {
                        assert(d.contains(e));
                        let x = choose|x: int| 0 <= x < d.len() && d[x] == e;
                        assert(!begins_again(d[x], t.bindings, final_ts));
                    }
                }
            },
        }
    }
}

/// An event of a type that a pattern does not list changes nothing.
pub proof fn theorem_passed_over(
    n: NfaSetup,
    m: NfaModel,
    s: StepSetup,
    t: StepModel,
    ev: EventView,
    bindings: BindingValueCache,
)
    ensures
        (forall|i: int|
            0 <= i < n.nfa.relevant_event_types@.len() ==> (
            #[trigger] n.nfa.relevant_event_types@[i])@ != ev.event_type) ==> after_event(n, m, ev)
            == m,
        (forall|i: int|
            0 <= i < s.nfa.relevant_event_types@.len() ==> (
            #[trigger] s.nfa.relevant_event_types@[i])@ != ev.event_type) ==> after_step_event(
            s,
            t,
            ev,
            bindings,
        ) == t,
{
}

/// After a candidate was added its anchor is there once, with the latest time of the
/// candidates that had it, and the candidates with other anchors are as and where they were.
/// A candidate with a new anchor stands behind the others.
pub proof fn theorem_candidate_added(d: Seq<CandidateEntry>, c: CandidateEntry)
    requires
        forall|i: int, j: int|
            0 <= i < j < d.len() ==> (#[trigger] d[i]).anchor_ts != (#[trigger] d[j]).anchor_ts,
    ensures
        ({
            let r = with_candidate(d, c);
            &&& forall|i: int, j: int|
                0 <= i < j < r.len() ==> (#[trigger] r[i]).anchor_ts != (#[trigger] r[j]).anchor_ts
            &&& forall|i: int|
                0 <= i < d.len() ==> {
                    &&& i < r.len()
                    &&& (#[trigger] r[i]).anchor_ts == d[i].anchor_ts
                    &&& d[i].anchor_ts != c.anchor_ts ==> r[i] == d[i]
                    &&& d[i].anchor_ts == c.anchor_ts ==> r[i].last_step_ts >= d[i].last_step_ts
                        && r[i].last_step_ts >= c.last_step_ts && (r[i].last_step_ts
                        == d[i].last_step_ts || r[i].last_step_ts == c.last_step_ts)
                }
            &&& if exists|i: int| 0 <= i < d.len() && (#[trigger] d[i]).anchor_ts == c.anchor_ts {
                r.len() == d.len()
            } else {
                r.len() == d.len() + 1 && r[d.len() as int] == c
            }
        }),
{
    lemma_anchor_position(d, c.anchor_ts);
    let p = anchor_position(d, c.anchor_ts);
    if p >= 0 {
        let _ = d[p];
        assert forall|i: int| 0 <= i < d.len() && d[i].anchor_ts == c.anchor_ts implies i == p by {
            let _ = (d[i], d[p]);
        }
    }
}

} // verus!
