//! Which unfinished matches are reported.
//!
//! An entity may leave several unfinished matches behind. When every match is
//! wanted, the farthest one for each first step is reported; when only the first
//! match is wanted, the farthest one for each combination of bound values. None
//! is reported where a completed match takes its place.

use vstd::prelude::*;

use super::bindings::same_values;
use super::nfa::{CompletionView, MatchCompletion, PartialMatch, PartialView, completion_views,
    partial_views};

verus! {

/// Whether two unfinished matches compete for one report.
pub open spec fn same_entry(match_all: bool, p: PartialView, q: PartialView) -> bool {
    p.bindings == q.bindings && (match_all ==> p.anchor_ts == q.anchor_ts)
}

/// Whether the first of two competing matches is reported rather than the
/// second: it got farther, or, when only the first match is wanted, as far but
/// from an earlier first step.
pub open spec fn better(match_all: bool, p: PartialView, q: PartialView) -> bool {
    p.step_reached > q.step_reached || (!match_all && p.step_reached == q.step_reached
        && p.anchor_ts < q.anchor_ts)
}

/// Whether a completed match takes the place of an unfinished one.
pub open spec fn superseded(match_all: bool, cs: Seq<CompletionView>, p: PartialView) -> bool {
    exists|i: int|
        0 <= i < cs.len() && (#[trigger] cs[i]).bindings == p.bindings && (match_all
            ==> cs[i].anchor_ts == p.anchor_ts)
}

/// Whether, of the first `n` unfinished matches, `v` is one to report.
pub open spec fn is_best(
    match_all: bool,
    cs: Seq<CompletionView>,
    ps: Seq<PartialView>,
    n: int,
    v: PartialView,
) -> bool {
    &&& !superseded(match_all, cs, v)
    &&& exists|i: int| 0 <= i < n && #[trigger] ps[i] == v
    &&& forall|i: int|
        0 <= i < n && same_entry(match_all, #[trigger] ps[i], v) ==> !better(match_all, ps[i], v)
}

/// The order of reports: by first step, then by step reached.
pub open spec fn report_order(p: PartialView, q: PartialView) -> bool {
    p.anchor_ts < q.anchor_ts || (p.anchor_ts == q.anchor_ts && p.step_reached <= q.step_reached)
}

/// Reports in order.
pub open spec fn in_report_order(out: Seq<PartialView>) -> bool {
    forall|i: int, j: int|
        0 <= i < j < out.len() ==> report_order(#[trigger] out[i], #[trigger] out[j])
}

/// What is reported of the unfinished matches `ps`: nothing unless wanted, else
/// each match to report once, in order.
pub open spec fn normalized(
    match_all: bool,
    emit_all: bool,
    cs: Seq<CompletionView>,
    ps: Seq<PartialView>,
    out: Seq<PartialView>,
) -> bool {
    if emit_all {
        &&& in_report_order(out)
        &&& out.no_duplicates()
        &&& forall|v: PartialView|
            #[trigger] out.contains(v) <==> is_best(match_all, cs, ps, ps.len() as int, v)
    } else {
        out.len() == 0
    }
}

/// Whether a completed match takes the place of an unfinished one.
fn is_superseded(match_all: bool, completions: &Vec<MatchCompletion>, p: &PartialMatch) -> (r: bool)
    ensures
        r == superseded(match_all, completion_views(completions@), p@),
{
    let ghost cs = completion_views(completions@);
    let mut i: usize = 0;
    while i < completions.len()
        invariant
            i <= completions@.len(),
            cs == completion_views(completions@),
            forall|j: int|
                0 <= j < i ==> !((#[trigger] cs[j]).bindings == p@.bindings && (match_all
                    ==> cs[j].anchor_ts == p@.anchor_ts)),
        decreases completions@.len() - i,
    {
        let c: &MatchCompletion = &completions[i];
        assert(cs[i as int] == c@);
        if same_values(c.bindings.as_slice(), p.bindings.as_slice()) && (!match_all || c.anchor_ts
            == p.anchor_ts) {
            return true;
        }
        i = i + 1;
    }
    false
}

/// The position of the match that competes with `p`.
fn competitor(match_all: bool, best: &Vec<PartialMatch>, p: &PartialMatch) -> (r: Option<usize>)
    ensures
        match r {
            Some(k) => k < best@.len() && same_entry(match_all, best@[k as int]@, p@),
            None => forall|a: int|
                0 <= a < best@.len() ==> !same_entry(match_all, (#[trigger] best@[a])@, p@),
        },
{
    let mut k: usize = 0;
    while k < best.len()
        invariant
            k <= best@.len(),
            forall|a: int|
                0 <= a < k ==> !same_entry(match_all, (#[trigger] best@[a])@, p@),
        decreases best@.len() - k,
    {
        if same_values(best[k].bindings.as_slice(), p.bindings.as_slice()) && (!match_all
            || best[k].anchor_ts == p.anchor_ts) {
            return Some(k);
        }
        k = k + 1;
    }
    None
}

/// Whether a match is reported rather than a competing one.
fn is_better(match_all: bool, p: &PartialMatch, q: &PartialMatch) -> (r: bool)
    ensures
        r == better(match_all, p@, q@),
{
    p.step_reached > q.step_reached || (!match_all && p.step_reached == q.step_reached
        && p.anchor_ts < q.anchor_ts)
}

/// The entries of `best` are the matches to report of the first `n`.
#[verifier::opaque]
spec fn chosen(
    match_all: bool,
    cs: Seq<CompletionView>,
    ps: Seq<PartialView>,
    n: int,
    best: Seq<PartialView>,
) -> bool {
    &&& forall|a: int, b: int|
        0 <= a < b < best.len() ==> !same_entry(
            match_all,
            #[trigger] best[a],
            #[trigger] best[b],
        )
    &&& forall|a: int| 0 <= a < best.len() ==> is_best(match_all, cs, ps, n, #[trigger] best[a])
    &&& forall|j: int|
        0 <= j < n && !superseded(match_all, cs, #[trigger] ps[j]) ==> exists|a: int|
            0 <= a < best.len() && same_entry(match_all, #[trigger] best[a], ps[j])
}

proof fn lemma_chosen_skip(
    match_all: bool,
    cs: Seq<CompletionView>,
    ps: Seq<PartialView>,
    n: int,
    best: Seq<PartialView>,
)
    requires
        0 <= n < ps.len(),
        chosen(match_all, cs, ps, n, best),
        superseded(match_all, cs, ps[n]),
    ensures
        chosen(match_all, cs, ps, n + 1, best),
{
    reveal(chosen);
    assert forall|a: int| 0 <= a < best.len() implies is_best(
        match_all,
        cs,
        ps,
        n + 1,
        #[trigger] best[a],
    ) by {
        let v = best[a];
        let i = choose|i: int| 0 <= i < n && #[trigger] ps[i] == v;
        assert(ps[i] == v);
        if same_entry(match_all, ps[n], v) {
            let c = choose|c: int|
                0 <= c < cs.len() && (#[trigger] cs[c]).bindings == ps[n].bindings && (match_all
                    ==> cs[c].anchor_ts == ps[n].anchor_ts);
            assert(cs[c].bindings == v.bindings);
            assert(superseded(match_all, cs, v));
        }
    }
}

proof fn lemma_chosen_keep(
    match_all: bool,
    cs: Seq<CompletionView>,
    ps: Seq<PartialView>,
    n: int,
    best: Seq<PartialView>,
    k: int,
)
    requires
        0 <= n < ps.len(),
        0 <= k < best.len(),
        chosen(match_all, cs, ps, n, best),
        same_entry(match_all, best[k], ps[n]),
        !better(match_all, ps[n], best[k]),
    ensures
        chosen(match_all, cs, ps, n + 1, best),
{
    reveal(chosen);
    assert forall|a: int| 0 <= a < best.len() implies is_best(
        match_all,
        cs,
        ps,
        n + 1,
        #[trigger] best[a],
    ) by {
        let v = best[a];
        let i = choose|i: int| 0 <= i < n && #[trigger] ps[i] == v;
        assert(ps[i] == v);
        if a != k && same_entry(match_all, ps[n], v) {
            assert(same_entry(match_all, best[k], v));
            assert(same_entry(match_all, v, best[k]));
        }
    }
}

proof fn lemma_chosen_replace(
    match_all: bool,
    cs: Seq<CompletionView>,
    ps: Seq<PartialView>,
    n: int,
    best: Seq<PartialView>,
    k: int,
)
    requires
        0 <= n < ps.len(),
        0 <= k < best.len(),
        chosen(match_all, cs, ps, n, best),
        !superseded(match_all, cs, ps[n]),
        same_entry(match_all, best[k], ps[n]),
        better(match_all, ps[n], best[k]),
    ensures
        chosen(match_all, cs, ps, n + 1, best.update(k, ps[n])),
{
    reveal(chosen);
    let p = ps[n];
    let after = best.update(k, p);
    assert forall|a: int, b: int| 0 <= a < b < after.len() implies !same_entry(
        match_all,
        #[trigger] after[a],
        #[trigger] after[b],
    ) by {
        if a == k {
            assert(!same_entry(match_all, best[k], best[b]));
        } else if b == k {
            assert(!same_entry(match_all, best[a], best[k]));
        } else {
            assert(!same_entry(match_all, best[a], best[b]));
        }
    }
    assert forall|a: int| 0 <= a < after.len() implies is_best(
        match_all,
        cs,
        ps,
        n + 1,
        #[trigger] after[a],
    ) by {
        if a == k {
            assert(ps[n] == p);
            assert forall|i: int|
                0 <= i < n + 1 && same_entry(match_all, #[trigger] ps[i], p) implies !better(
                match_all,
                ps[i],
                p,
            ) by {
                if i < n {
                    assert(is_best(match_all, cs, ps, n, best[k]));
                    assert(same_entry(match_all, ps[i], best[k]));
                }
            }
        } else {
            let v = best[a];
            assert(is_best(match_all, cs, ps, n, v));
            let i = choose|i: int| 0 <= i < n && #[trigger] ps[i] == v;
            assert(ps[i] == v);
            if same_entry(match_all, p, v) {
                assert(same_entry(match_all, best[k], v));
                assert(same_entry(match_all, v, best[k]));
            }
        }
    }
    assert forall|j: int|
        0 <= j < n + 1 && !superseded(match_all, cs, #[trigger] ps[j]) implies exists|a: int|
        0 <= a < after.len() && same_entry(match_all, #[trigger] after[a], ps[j]) by {
        if j == n {
            assert(same_entry(match_all, after[k], ps[j]));
        } else {
            let a = choose|a: int|
                0 <= a < best.len() && same_entry(match_all, #[trigger] best[a], ps[j]);
            if a == k {
                assert(same_entry(match_all, after[k], ps[j]));
            } else {
                assert(after[a] == best[a]);
            }
        }
    }
}

proof fn lemma_chosen_push(
    match_all: bool,
    cs: Seq<CompletionView>,
    ps: Seq<PartialView>,
    n: int,
    best: Seq<PartialView>,
)
    requires
        0 <= n < ps.len(),
        chosen(match_all, cs, ps, n, best),
        !superseded(match_all, cs, ps[n]),
        forall|a: int| 0 <= a < best.len() ==> !same_entry(match_all, #[trigger] best[a], ps[n]),
    ensures
        chosen(match_all, cs, ps, n + 1, best.push(ps[n])),
{
    reveal(chosen);
    let p = ps[n];
    let after = best.push(p);
    assert forall|a: int| 0 <= a < after.len() implies is_best(
        match_all,
        cs,
        ps,
        n + 1,
        #[trigger] after[a],
    ) by {
        if a == best.len() {
            assert(ps[n] == p);
            assert forall|i: int|
                0 <= i < n + 1 && same_entry(match_all, #[trigger] ps[i], p) implies !better(
                match_all,
                ps[i],
                p,
            ) by {
                if i < n {
                    if superseded(match_all, cs, ps[i]) {
                        let c = choose|c: int|
                            0 <= c < cs.len() && (#[trigger] cs[c]).bindings == ps[i].bindings && (
                            match_all ==> cs[c].anchor_ts == ps[i].anchor_ts);
                        assert(cs[c].bindings == p.bindings);
                        assert(superseded(match_all, cs, p));
                    }
                    let a = choose|a: int|
                        0 <= a < best.len() && same_entry(match_all, #[trigger] best[a], ps[i]);
                    assert(!same_entry(match_all, best[a], p));
                }
            }
        } else {
            let v = best[a];
            assert(is_best(match_all, cs, ps, n, v));
            let i = choose|i: int| 0 <= i < n && #[trigger] ps[i] == v;
            assert(ps[i] == v);
            assert(!same_entry(match_all, best[a], p));
        }
    }
    assert forall|j: int|
        0 <= j < n + 1 && !superseded(match_all, cs, #[trigger] ps[j]) implies exists|a: int|
        0 <= a < after.len() && same_entry(match_all, #[trigger] after[a], ps[j]) by {
        if j == n {
            assert(same_entry(match_all, after[best.len() as int], ps[j]));
        } else {
            let a = choose|a: int|
                0 <= a < best.len() && same_entry(match_all, #[trigger] best[a], ps[j]);
            assert(after[a] == best[a]);
        }
    }
}

/// The chosen matches are exactly those to report.
proof fn lemma_chosen_all(
    match_all: bool,
    cs: Seq<CompletionView>,
    ps: Seq<PartialView>,
    best: Seq<PartialView>,
)
    requires
        chosen(match_all, cs, ps, ps.len() as int, best),
    ensures
        best.no_duplicates(),
        forall|v: PartialView|
            #[trigger] best.contains(v) <==> is_best(match_all, cs, ps, ps.len() as int, v),
{
    reveal(chosen);
    let n = ps.len() as int;
    assert forall|v: PartialView| is_best(match_all, cs, ps, n, v) implies #[trigger] best.contains(
        v,
    ) by {
        let i = choose|i: int| 0 <= i < n && #[trigger] ps[i] == v;
        let a = choose|a: int|
            0 <= a < best.len() && same_entry(match_all, #[trigger] best[a], ps[i]);
        let w = best[a];
        assert(is_best(match_all, cs, ps, n, w));
        let j = choose|j: int| 0 <= j < n && #[trigger] ps[j] == w;
        assert(!better(match_all, ps[j], v));
        assert(!better(match_all, ps[i], w));
        assert(w == v);
    }
    assert forall|a: int, b: int| 0 <= a < best.len() && 0 <= b < best.len() && a != b implies best[a]
        != best[b] by {
        if a < b {
            assert(!same_entry(match_all, best[a], best[b]));
        } else {
            assert(!same_entry(match_all, best[b], best[a]));
        }
    }
}

/// Whether one report comes before another.
fn comes_first(p: &PartialMatch, q: &PartialMatch) -> (r: bool)
    ensures
        r == report_order(p@, q@),
{
    p.anchor_ts < q.anchor_ts || (p.anchor_ts == q.anchor_ts && p.step_reached <= q.step_reached)
}

/// Puts reports in order.
fn sort_reports(reports: Vec<PartialMatch>) -> (out: Vec<PartialMatch>)
    requires
        partial_views(reports@).no_duplicates(),
    ensures
        in_report_order(partial_views(out@)),
        partial_views(out@).no_duplicates(),
        forall|v: PartialView|
            #[trigger] partial_views(out@).contains(v) <==> partial_views(reports@).contains(v),
{
    let ghost all = partial_views(reports@);
    let mut rest = reports;
    let mut out: Vec<PartialMatch> = Vec::new();
    proof {
        assert(partial_views(out@) =~= Seq::empty());
    }
    while rest.len() > 0
        invariant
            in_report_order(partial_views(out@)),
            partial_views(out@).no_duplicates(),
            partial_views(rest@).no_duplicates(),
            forall|v: PartialView|
                #[trigger] all.contains(v) <==> (partial_views(out@).contains(v)
                    || partial_views(rest@).contains(v)),
            forall|v: PartialView|
                #[trigger] partial_views(out@).contains(v) ==> !partial_views(rest@).contains(v),
        decreases rest@.len(),
    {
        let ghost rest0 = partial_views(rest@);
        let ghost out0 = partial_views(out@);
        let x: PartialMatch = match rest.pop() {
            Some(x) => x,
            None => {
                return out;
            },
        };
        let ghost xv = x@;
        let ghost rest1 = partial_views(rest@);
        proof {
            assert(rest0 =~= rest1.push(xv));
            assert(rest0[rest1.len() as int] == xv);
            assert(rest0.contains(xv));
            assert forall|v: PartialView| #[trigger] rest1.contains(v) implies rest0.contains(v) && v
                != xv by {
                let i = choose|i: int| 0 <= i < rest1.len() && rest1[i] == v;
                assert(rest0[i] == v);
                assert(rest0[i] != rest0[rest1.len() as int]);
            }
            assert(!out0.contains(xv));
        }
        let mut k: usize = out.len();
        while k > 0 && !comes_first(&out[k - 1], &x)
            invariant
                k <= out@.len(),
                out0 == partial_views(out@),
                xv == x@,
                forall|j: int| k <= j < out0.len() ==> !report_order(#[trigger] out0[j], xv),
            decreases k,
        {
            assert(out0[k - 1] == out@[k - 1]@);
            k = k - 1;
        }
        out.insert(k, x);
        proof {
            let out1 = partial_views(out@);
            assert(out1 =~= out0.insert(k as int, xv));
            assert forall|i: int, j: int| 0 <= i < j < out1.len() implies report_order(
                #[trigger] out1[i],
                #[trigger] out1[j],
            ) by {
                let i0 = if i < k { i } else { i - 1 };
                let j0 = if j < k { j } else { j - 1 };
                if i == k {
                    assert(out1[j] == out0[j0]);
                    assert(!report_order(out0[j0], xv));
                } else if j == k {
                    assert(out1[i] == out0[i0]);
                    if k > 0 && i0 < k - 1 {
                        assert(report_order(out0[i0], out0[k - 1]));
                    }
                    assert(report_order(out0[k - 1], xv));
                } else {
                    assert(out1[i] == out0[i0] && out1[j] == out0[j0]);
                    assert(report_order(out0[i0], out0[j0]));
                }
            }
            assert forall|v: PartialView| #[trigger] out1.contains(v) <==> (out0.contains(v) || v
                == xv) by {
                if out0.contains(v) {
                    let i = choose|i: int| 0 <= i < out0.len() && out0[i] == v;
                    assert(out1[if i < k { i } else { i + 1 }] == v);
                }
                if v == xv {
                    assert(out1[k as int] == v);
                }
                if out1.contains(v) {
                    let i = choose|i: int| 0 <= i < out1.len() && out1[i] == v;
                    if i != k {
                        assert(out0[if i < k { i } else { i - 1 }] == v);
                    }
                }
            }
            assert forall|a: int, b: int|
                0 <= a < out1.len() && 0 <= b < out1.len() && a != b implies out1[a] != out1[b] by {
                let a0 = if a < k { a } else { a - 1 };
                let b0 = if b < k { b } else { b - 1 };
                if a == k {
                    assert(out1[b] == out0[b0]);
                    assert(out0.contains(out0[b0]));
                } else if b == k {
                    assert(out1[a] == out0[a0]);
                    assert(out0.contains(out0[a0]));
                } else {
                    assert(out0[a0] != out0[b0]);
                }
            }
            assert forall|a: int, b: int|
                0 <= a < rest1.len() && 0 <= b < rest1.len() && a != b implies rest1[a]
                != rest1[b] by {
                assert(rest0[a] != rest0[b]);
            }
            assert forall|v: PartialView| #[trigger] all.contains(v) <==> (out1.contains(v)
                || rest1.contains(v)) by {
                if rest0.contains(v) && v != xv {
                    let i = choose|i: int| 0 <= i < rest0.len() && rest0[i] == v;
                    assert(rest1[i] == v);
                }
            }
        }
    }
    proof {
        assert forall|v: PartialView| #[trigger] partial_views(out@).contains(v) <==> all.contains(
            v,
        ) by {
            if all.contains(v) && partial_views(rest@).contains(v) {
                let i = choose|i: int|
                    0 <= i < partial_views(rest@).len() && partial_views(rest@)[i] == v;
                assert(false);
            }
        }
    }
    out
}

/// The unfinished matches to report, in order.
pub fn normalize_emit_all_rows(
    match_all: bool,
    emit_all: bool,
    completions: &Vec<MatchCompletion>,
    partials: Vec<PartialMatch>,
) -> (out: Vec<PartialMatch>)
    ensures
        normalized(
            match_all,
            emit_all,
            completion_views(completions@),
            partial_views(partials@),
            partial_views(out@),
        ),
{
    if !emit_all {
        return Vec::new();
    }
    let ghost cs = completion_views(completions@);
    let ghost ps = partial_views(partials@);
    let mut best: Vec<PartialMatch> = Vec::new();
    let mut i: usize = 0;
    assert(chosen(match_all, cs, ps, 0, partial_views(best@))) by {
        reveal(chosen);
    }
    while i < partials.len()
        invariant
            i <= partials@.len(),
            cs == completion_views(completions@),
            ps == partial_views(partials@),
            chosen(match_all, cs, ps, i as int, partial_views(best@)),
        decreases partials@.len() - i,
    {
        let p: &PartialMatch = &partials[i];
        let ghost best0 = partial_views(best@);
        assert(ps[i as int] == p@);
        if is_superseded(match_all, completions, p) {
            proof {
                lemma_chosen_skip(match_all, cs, ps, i as int, best0);
            }
        } else {
            match competitor(match_all, &best, p) {
                Some(k) => {
                    assert(best0[k as int] == best@[k as int]@);
                    if is_better(match_all, p, &best[k]) {
                        proof {
                            lemma_chosen_replace(match_all, cs, ps, i as int, best0, k as int);
                        }
                        best.set(k, p.duplicate());
                        assert(partial_views(best@) =~= best0.update(k as int, p@));
                    } else {
                        proof {
                            lemma_chosen_keep(match_all, cs, ps, i as int, best0, k as int);
                        }
                    }
                },
                None => {
                    proof {
                        assert forall|a: int| 0 <= a < best0.len() implies !same_entry(
                            match_all,
                            #[trigger] best0[a],
                            ps[i as int],
                        ) by {
                            assert(best0[a] == best@[a]@);
                        }
                        lemma_chosen_push(match_all, cs, ps, i as int, best0);
                    }
                    best.push(p.duplicate());
                    assert(partial_views(best@) =~= best0.push(p@));
                },
            }
        }
        i = i + 1;
    }
    proof {
        lemma_chosen_all(match_all, cs, ps, partial_views(best@));
    }
    sort_reports(best)
}

} // verus!
