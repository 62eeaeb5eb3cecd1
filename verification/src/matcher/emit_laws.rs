//! What is reported of unfinished matches.

use vstd::prelude::*;

use super::emit::{better, is_best, normalized, report_order, same_entry,
    superseded};
use super::nfa::{CompletionView, PartialView};

verus! {

/// Whether two unfinished matches stand for the same attempt: they have the same bound
/// values and, where every match is wanted, the same first step.
pub open spec fn is_same_attempt(match_all: bool, p: PartialView, q: PartialView) -> bool {
    &&& p.bindings == q.bindings
    &&& !match_all || p.anchor_ts == q.anchor_ts
}

/// Whether a completed match stands for the same attempt as an unfinished one.
pub open spec fn is_completed(match_all: bool, c: CompletionView, p: PartialView) -> bool {
    &&& c.bindings == p.bindings
    &&& !match_all || c.anchor_ts == p.anchor_ts
}

/// Whether one of some completed matches stands for the same attempt.
pub open spec fn any_completed(match_all: bool, cs: Seq<CompletionView>, p: PartialView) -> bool {
    exists|i: int| 0 <= i < cs.len() && is_completed(match_all, #[trigger] cs[i], p)
}

/// Whether a report is of the given attempt.
pub open spec fn any_report(match_all: bool, out: Seq<PartialView>, p: PartialView) -> bool {
    exists|k: int| 0 <= k < out.len() && is_same_attempt(match_all, #[trigger] out[k], p)
}

proof fn lemma_superseded(match_all: bool, cs: Seq<CompletionView>, p: PartialView)
    ensures
        superseded(match_all, cs, p) == any_completed(match_all, cs, p),
{
    if superseded(match_all, cs, p) {
        let i = choose|i: int|
            0 <= i < cs.len() && (#[trigger] cs[i]).bindings == p.bindings && (match_all
                ==> cs[i].anchor_ts == p.anchor_ts);
        assert(is_completed(match_all, cs[i], p));
    }
    if any_completed(match_all, cs, p) {
        let i = choose|i: int| 0 <= i < cs.len() && is_completed(match_all, #[trigger] cs[i], p);
        assert(cs[i].bindings == p.bindings);
    }
}

/// Of the first `n` unfinished matches one is best for an attempt.
proof fn lemma_some_best(
    match_all: bool,
    cs: Seq<CompletionView>,
    ps: Seq<PartialView>,
    n: int,
    p: PartialView,
) -> (v: PartialView)
    requires
        0 <= n <= ps.len(),
        !superseded(match_all, cs, p),
        exists|i: int| 0 <= i < n && same_entry(match_all, #[trigger] ps[i], p),
    ensures
        same_entry(match_all, v, p),
        is_best(match_all, cs, ps, n, v),
    decreases n,
{
    let last = ps[n - 1];
    if exists|i: int| 0 <= i < n - 1 && same_entry(match_all, #[trigger] ps[i], p) {
        let v = lemma_some_best(match_all, cs, ps, n - 1, p);
        let k = choose|k: int| 0 <= k < n - 1 && #[trigger] ps[k] == v;
        assert(ps[k] == v);
        if same_entry(match_all, last, p) && better(match_all, last, v) {
            lemma_superseded(match_all, cs, p);
            lemma_superseded(match_all, cs, last);
            assert(!superseded(match_all, cs, last)) by {
                if any_completed(match_all, cs, last) {
                    let i = choose|i: int|
                        0 <= i < cs.len() && is_completed(match_all, #[trigger] cs[i], last);
                    assert(is_completed(match_all, cs[i], p));
                }
            }
            assert(ps[n - 1] == last);
            assert forall|i: int|
                0 <= i < n && same_entry(match_all, #[trigger] ps[i], last) implies !better(
                match_all,
                ps[i],
                last,
            ) by {
                assert(same_entry(match_all, ps[i], v));
            }
            last
        } else {
            assert forall|i: int|
                0 <= i < n && same_entry(match_all, #[trigger] ps[i], v) implies !better(
                match_all,
                ps[i],
                v,
            ) by {
                if i == n - 1 {
                    assert(same_entry(match_all, last, p));
                }
            }
            v
        }
    } else {
        let i = choose|i: int| 0 <= i < n && same_entry(match_all, #[trigger] ps[i], p);
        assert(i == n - 1);
        lemma_superseded(match_all, cs, p);
        lemma_superseded(match_all, cs, last);
        assert(!superseded(match_all, cs, last)) by {
            if any_completed(match_all, cs, last) {
                let i = choose|i: int|
                    0 <= i < cs.len() && is_completed(match_all, #[trigger] cs[i], last);
                assert(is_completed(match_all, cs[i], p));
            }
        }
        assert forall|i: int|
            0 <= i < n && same_entry(match_all, #[trigger] ps[i], last) implies !better(
            match_all,
            ps[i],
            last,
        ) by {
            assert(same_entry(match_all, ps[i], p));
        }
        last
    }
}

/// Where unfinished matches are not wanted none is reported. Else every attempt without
/// a completed match is reported once, by an unfinished match that got as far as any of
/// the attempt and, where only the first match is wanted, is the earliest of those that
/// got so far. Nothing else is reported. Reports are ordered by first step, then by the
/// step reached.
pub proof fn theorem_reports(
    match_all: bool,
    emit_all: bool,
    cs: Seq<CompletionView>,
    ps: Seq<PartialView>,
    out: Seq<PartialView>,
)
    requires
        normalized(match_all, emit_all, cs, ps, out),
    ensures
        !emit_all ==> out.len() == 0,
        emit_all ==> {
            &&& forall|k: int|
                0 <= k < out.len() ==> ps.contains(#[trigger] out[k]) && !any_completed(
                    match_all,
                    cs,
                    out[k],
                )
            &&& forall|k: int, i: int|
                0 <= k < out.len() && 0 <= i < ps.len() && is_same_attempt(
                    match_all,
                    #[trigger] ps[i],
                    #[trigger] out[k],
                ) ==> {
                    &&& ps[i].step_reached <= out[k].step_reached
                    &&& !match_all && ps[i].step_reached == out[k].step_reached
                        ==> out[k].anchor_ts <= ps[i].anchor_ts
                }
            &&& forall|i: int|
                0 <= i < ps.len() ==> any_completed(match_all, cs, #[trigger] ps[i]) != any_report(
                    match_all,
                    out,
                    ps[i],
                )
            &&& forall|a: int, b: int|
                0 <= a < b < out.len() ==> {
                    &&& !is_same_attempt(match_all, #[trigger] out[a], #[trigger] out[b])
                    &&& out[a].anchor_ts < out[b].anchor_ts || (out[a].anchor_ts
                        == out[b].anchor_ts && out[a].step_reached <= out[b].step_reached)
                }
        },
{
    if emit_all {
        let n = ps.len() as int;
        assert forall|k: int| 0 <= k < out.len() implies is_best(
            match_all,
            cs,
            ps,
            n,
            #[trigger] out[k],
        ) && ps.contains(out[k]) && !any_completed(match_all, cs, out[k]) by {
            assert(out.contains(out[k]));
            lemma_superseded(match_all, cs, out[k]);
            let i = choose|i: int| 0 <= i < n && #[trigger] ps[i] == out[k];
            assert(ps[i] == out[k]);
        }
        assert forall|k: int, i: int|
            0 <= k < out.len() && 0 <= i < ps.len() && is_same_attempt(
                match_all,
                #[trigger] ps[i],
                #[trigger] out[k],
            ) implies {
            &&& ps[i].step_reached <= out[k].step_reached
            &&& !match_all && ps[i].step_reached == out[k].step_reached ==> out[k].anchor_ts
                <= ps[i].anchor_ts
        } by {
            assert(is_best(match_all, cs, ps, n, out[k]));
            assert(same_entry(match_all, ps[i], out[k]));
        }
        assert forall|i: int| 0 <= i < ps.len() implies any_completed(
            match_all,
            cs,
            #[trigger] ps[i],
        ) != any_report(match_all, out, ps[i]) by {
            let p = ps[i];
            lemma_superseded(match_all, cs, p);
            if any_completed(match_all, cs, p) {
                if any_report(match_all, out, p) {
                    let k = choose|k: int|
                        0 <= k < out.len() && is_same_attempt(match_all, #[trigger] out[k], p);
                    let c = choose|c: int|
                        0 <= c < cs.len() && is_completed(match_all, #[trigger] cs[c], p);
                    assert(is_completed(match_all, cs[c], out[k]));
                    assert(any_completed(match_all, cs, out[k]));
                }
            } else {
                assert(same_entry(match_all, ps[i], p));
                let v = lemma_some_best(match_all, cs, ps, n, p);
                assert(out.contains(v));
                let k = choose|k: int| 0 <= k < out.len() && out[k] == v;
                assert(is_same_attempt(match_all, out[k], p));
            }
        }
        assert forall|a: int, b: int| 0 <= a < b < out.len() implies {
            &&& !is_same_attempt(match_all, #[trigger] out[a], #[trigger] out[b])
            &&& out[a].anchor_ts < out[b].anchor_ts || (out[a].anchor_ts == out[b].anchor_ts
                && out[a].step_reached <= out[b].step_reached)
        } by {
            assert(report_order(out[a], out[b]));
            if is_same_attempt(match_all, out[a], out[b]) {
                assert(is_best(match_all, cs, ps, n, out[a]));
                assert(is_best(match_all, cs, ps, n, out[b]));
                let i = choose|i: int| 0 <= i < n && #[trigger] ps[i] == out[a];
                let j = choose|j: int| 0 <= j < n && #[trigger] ps[j] == out[b];
                assert(same_entry(match_all, ps[i], out[b]));
                assert(same_entry(match_all, ps[j], out[a]));
                assert(out[a] == out[b]);
            }
        }
    }
}

} // verus!
