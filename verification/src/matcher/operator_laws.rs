//! What a match operator is set up with, and what it leaves of an entity.

use vstd::prelude::*;

use super::bindings::{BindingTrackView, BindingView, binding_track_views};
use super::nfa::{CompletionView, PartialView, finished};
use super::pattern::{CompiledNfa, PatternClass, TimeRange, VariableBindingDef};
use super::step_counter::finished_steps;
use super::{MatchStrategy, PhysicalPlan, SequenceMatchState, columns_read, entry_range_of,
    match_columns, raw_results, strategy_for, tracks_completions, tracks_dropped,
    tracks_final_partials, tracks_partials, with_variable_columns};
use crate::schema::BqlType;

verus! {

/// The automaton executes general patterns and every pattern whose events are wanted.
/// Consecutive matching is for immediate patterns, the step counter for all other linear
/// ones.
pub proof fn theorem_strategy(class: PatternClass, track_match_events: bool)
    ensures
        strategy_for(class, track_match_events) == MatchStrategy::FullNfa <==> track_match_events
            || class == PatternClass::GeneralNfa,
        strategy_for(class, track_match_events) == MatchStrategy::ConsecutiveMatcher
            <==> !track_match_events && class == PatternClass::LinearImmediate,
{
}

/// The node that a plan has below it, if it is one that changes no time.
pub open spec fn below(plan: PhysicalPlan) -> Option<PhysicalPlan> {
    match plan {
        PhysicalPlan::FusedSegment { input } => Some(*input),
        PhysicalPlan::SequenceMatch { input } => Some(*input),
        PhysicalPlan::Aggregate { input } => Some(*input),
        PhysicalPlan::Sort { input } => Some(*input),
        PhysicalPlan::Distinct { input } => Some(*input),
        PhysicalPlan::Scan { .. } => None,
        PhysicalPlan::Other => None,
    }
}

/// A plan begins where the plan below it begins, a scan in the range that it is asked for.
/// Any other node sets no range.
pub proof fn theorem_entry_range(plan: PhysicalPlan, range: Option<TimeRange>)
    ensures
        below(plan) matches Some(input) ==> entry_range_of(plan) == entry_range_of(input),
        entry_range_of(PhysicalPlan::Scan { query_range: range }) == range,
        entry_range_of(PhysicalPlan::Other) is None,
{
}

proof fn lemma_variable_columns(
    names: Seq<Seq<char>>,
    variables: Seq<VariableBindingDef>,
    n: int,
    name: Seq<char>,
)
    requires
        0 <= n <= variables.len(),
    ensures
        with_variable_columns(names, variables, n).contains(name) <==> names.contains(name)
            || exists|k: int| 0 <= k < n && (#[trigger] variables[k]).source_column@ == name,
        names.no_duplicates() ==> with_variable_columns(names, variables, n).no_duplicates(),
    decreases n,
{
    if n > 0 {
        lemma_variable_columns(names, variables, n - 1, name);
        let before = with_variable_columns(names, variables, n - 1);
        let all = with_variable_columns(names, variables, n);
        let last = variables[n - 1].source_column@;
        if !before.contains(last) {
            assert(all[before.len() as int] == last);
            if before.contains(name) {
                let i = choose|i: int| 0 <= i < before.len() && before[i] == name;
                assert(all[i] == name);
            }
        }
    }
}

/// A pattern reads the entity, the time and the type of events, the session where it is
/// limited to one, and the columns that its variables are read from. Each is listed once.
pub proof fn theorem_columns_read(nfa: &CompiledNfa, with_session: bool, name: Seq<char>)
    ensures
        columns_read(nfa, with_session).contains(name) <==> {
            ||| name == "entity_id"@
            ||| name == "ts"@
            ||| name == "event_type"@
            ||| with_session && name == "session_id"@
            ||| exists|k: int|
                0 <= k < nfa.variable_bindings@.len() && (
                #[trigger] nfa.variable_bindings@[k]).source_column@ == name
        },
        columns_read(nfa, with_session).no_duplicates(),
{
    let names = if with_session {
        super::basic_columns().push("session_id"@)
    } else {
        super::basic_columns()
    };
    reveal_strlit("entity_id");
    reveal_strlit("ts");
    reveal_strlit("event_type");
    reveal_strlit("session_id");
    assert("entity_id"@.len() == 9);
    assert("ts"@.len() == 2);
    assert("event_type"@.len() == 10);
    assert("session_id"@.len() == 10);
    assert("event_type"@[0] == 'e');
    assert("session_id"@[0] == 's');
    assert(names[0] == "entity_id"@ && names[1] == "ts"@ && names[2] == "event_type"@);
    assert(with_session ==> names[3] == "session_id"@);
    lemma_variable_columns(
        names,
        nfa.variable_bindings@,
        nfa.variable_bindings@.len() as int,
        name,
    );
}

/// The matcher itself shows the entity and the time that a match took, the step reached
/// where unfinished matches are wanted, and the bracket and its end where there are
/// brackets. Only the time may be null.
pub proof fn theorem_match_columns(emit_all: bool, bracketed: bool)
    ensures
        ({
            let columns = match_columns(emit_all, bracketed);
            let n: int = if emit_all {
                3
            } else {
                2
            };
            &&& columns.len() == n + (if bracketed {
                2int
            } else {
                0int
            })
            &&& columns[0].name == "entity_id"@ && columns[0].bql_type == BqlType::String
            &&& columns[1].name == "match_duration"@ && columns[1].bql_type == BqlType::Int
            &&& emit_all ==> columns[2].name == "step_reached"@ && columns[2].bql_type
                == BqlType::Int
            &&& bracketed ==> columns[n].name == "bracket"@ && columns[n].bql_type == BqlType::Int
            &&& bracketed ==> columns[n + 1].name == "bracket_end"@ && columns[n + 1].bql_type
                == BqlType::Int
            &&& forall|i: int| 0 <= i < columns.len() ==> (#[trigger] columns[i]).nullable == (i == 1)
        }),
{
}

/// What an entity leaves behind is what its simulator has at the end: every completed match,
/// every unfinished one, and how many candidates or tracks were dropped.
pub proof fn theorem_left_behind(nfa: &CompiledNfa, state: SequenceMatchState)
    ensures
        state matches SequenceMatchState::StepCounter(sc) ==> {
            &&& raw_results(nfa, state).completions == sc@.completions
            &&& raw_results(nfa, state).partials == finished_steps(nfa, sc@).partials
            &&& raw_results(nfa, state).dropped == sc@.dropped
        },
        state matches SequenceMatchState::NfaSingle(st) ==> {
            &&& raw_results(nfa, state).completions == st@.completions
            &&& raw_results(nfa, state).partials == finished(nfa, st@).partials
            &&& raw_results(nfa, state).dropped == st@.dropped_count
        },
{
}

/// How many candidates the first `n` tracks dropped, all together.
pub open spec fn all_dropped(tracks: Seq<BindingTrackView>, n: int) -> int
    decreases n,
{
    if n <= 0 {
        0
    } else {
        all_dropped(tracks, n - 1) + tracks[n - 1].nfa.dropped_count
    }
}

/// How many matches the first `n` tracks completed, all together.
pub open spec fn all_completed(tracks: Seq<BindingTrackView>, n: int) -> int
    decreases n,
{
    if n <= 0 {
        0
    } else {
        all_completed(tracks, n - 1) + tracks[n - 1].nfa.completions.len()
    }
}

proof fn lemma_tracks_dropped(start: u64, tracks: Seq<BindingTrackView>, n: int)
    ensures
        all_dropped(tracks, n) >= 0,
        tracks_dropped(start, tracks, n) == (if start + all_dropped(tracks, n) <= u64::MAX {
            start + all_dropped(tracks, n)
        } else {
            u64::MAX as int
        }),
    decreases n,
{
    if n > 0 {
        lemma_tracks_dropped(start, tracks, n - 1);
    }
}

proof fn lemma_tracks_completions(tracks: Seq<BindingTrackView>, n: int, k: int)
    requires
        0 <= n <= tracks.len(),
    ensures
        tracks_completions(tracks, n).len() == all_completed(tracks, n),
        all_completed(tracks, n) >= 0,
        0 <= k < n ==> {
            let from = all_completed(tracks, k);
            &&& 0 <= from <= all_completed(tracks, n) - tracks[k].nfa.completions.len()
            &&& forall|i: int|
                0 <= i < tracks[k].nfa.completions.len() ==> tracks_completions(tracks, n)[from + i]
                    == (CompletionView {
                    anchor_ts: (#[trigger] tracks[k].nfa.completions[i]).anchor_ts,
                    final_ts: tracks[k].nfa.completions[i].final_ts,
                    bindings: tracks[k].key,
                })
        },
    decreases n,
{
    if n > 0 {
        lemma_tracks_completions(tracks, n - 1, k);
        if k == n - 1 {
            lemma_tracks_completions(tracks, k, 0);
        }
    }
}

/// With variables, the matches that the tracks completed are listed track by track, each
/// with the bound values of its track, and the dropped candidates of all tracks are counted
/// together with the tracks that were refused, as far as the counter goes.
pub proof fn theorem_tracks_left_behind(nfa: &CompiledNfa, state: SequenceMatchState, k: int)
    ensures
        state matches SequenceMatchState::NfaWithBindings(bs) ==> {
            let tracks = binding_track_views(bs.tracks@);
            let n = tracks.len() as int;
            let r = raw_results(nfa, state);
            let total = bs.dropped_track_count + all_dropped(tracks, n);
            &&& r.dropped == (if total <= u64::MAX {
                total
            } else {
                u64::MAX as int
            })
            &&& !nfa.emit_all ==> r.partials.len() == 0
            &&& r.completions.len() == all_completed(tracks, n)
            &&& 0 <= k < n ==> forall|i: int|
                0 <= i < tracks[k].nfa.completions.len() ==> r.completions[all_completed(tracks, k)
                    + i] == (CompletionView {
                    anchor_ts: (#[trigger] tracks[k].nfa.completions[i]).anchor_ts,
                    final_ts: tracks[k].nfa.completions[i].final_ts,
                    bindings: tracks[k].key,
                })
        },
{
    if let SequenceMatchState::NfaWithBindings(bs) = state {
        let tracks = binding_track_views(bs.tracks@);
        lemma_tracks_dropped(bs.dropped_track_count, tracks, tracks.len() as int);
        lemma_tracks_completions(tracks, tracks.len() as int, k);
    }
}

/// How many unfinished matches the first `n` tracks have reported, all together.
pub open spec fn all_reported(tracks: Seq<BindingTrackView>, n: int) -> int
    decreases n,
{
    if n <= 0 {
        0
    } else {
        all_reported(tracks, n - 1) + tracks[n - 1].nfa.partials.len()
    }
}

/// How many unfinished matches the first `n` tracks have at the end, all together.
pub open spec fn all_unfinished(nfa: &CompiledNfa, tracks: Seq<BindingTrackView>, n: int) -> int
    decreases n,
{
    if n <= 0 {
        0
    } else {
        all_unfinished(nfa, tracks, n - 1) + finished(nfa, tracks[n - 1].nfa).partials.len()
    }
}

/// Whether `values` are the bound values, with the empty text where nothing is bound.
pub open spec fn fills_in(bound: Seq<Option<BindingView>>, values: Seq<BindingView>) -> bool {
    &&& values.len() == bound.len()
    &&& forall|v: int|
        0 <= v < bound.len() ==> if bound[v] is Some {
            bound[v] == Some(#[trigger] values[v])
        } else {
            values[v] == BindingView::String(Seq::empty())
        }
}

proof fn lemma_tracks_partials(nfa: &CompiledNfa, tracks: Seq<BindingTrackView>, n: int, k: int)
    requires
        0 <= n <= tracks.len(),
    ensures
        tracks_partials(tracks, n).len() == all_reported(tracks, n),
        tracks_final_partials(nfa, tracks, n).len() == all_unfinished(nfa, tracks, n),
        0 <= k < n ==> {
            let from = all_reported(tracks, k);
            let list = tracks[k].nfa.partials;
            &&& 0 <= from <= all_reported(tracks, n) - list.len()
            &&& forall|i: int|
                0 <= i < list.len() ==> tracks_partials(tracks, n)[from + i] == (PartialView {
                    anchor_ts: (#[trigger] list[i]).anchor_ts,
                    step_reached: list[i].step_reached,
                    bindings: tracks[k].key,
                })
        },
        0 <= k < n ==> {
            let from = all_unfinished(nfa, tracks, k);
            let list = finished(nfa, tracks[k].nfa).partials;
            &&& 0 <= from <= all_unfinished(nfa, tracks, n) - list.len()
            &&& forall|i: int|
                0 <= i < list.len() ==> {
                    let p = tracks_final_partials(nfa, tracks, n)[from + i];
                    &&& p.anchor_ts == (#[trigger] list[i]).anchor_ts
                    &&& p.step_reached == list[i].step_reached
                    &&& fills_in(tracks[k].bound, p.bindings)
                }
        },
    decreases n,
{
    if n > 0 {
        lemma_tracks_partials(nfa, tracks, n - 1, k);
        if k == n - 1 {
            lemma_tracks_partials(nfa, tracks, k, 0);
        }
    }
}

/// With variables, where unfinished matches are wanted, they are those that the tracks have
/// reported, each with the bound values of its track, and then those that the tracks have at
/// the end, each with the values bound so far. None is left out.
pub proof fn theorem_tracks_unfinished(nfa: &CompiledNfa, state: SequenceMatchState, k: int)
    ensures
        nfa.emit_all ==> (state matches SequenceMatchState::NfaWithBindings(bs) ==> {
            let tracks = binding_track_views(bs.tracks@);
            let n = tracks.len() as int;
            let r = raw_results(nfa, state);
            let list = tracks[k].nfa.partials;
            let rest = finished(nfa, tracks[k].nfa).partials;
            &&& r.partials.len() == all_reported(tracks, n) + all_unfinished(nfa, tracks, n)
            &&& 0 <= k < n ==> forall|i: int|
                0 <= i < list.len() ==> r.partials[all_reported(tracks, k) + i] == (PartialView {
                    anchor_ts: (#[trigger] list[i]).anchor_ts,
                    step_reached: list[i].step_reached,
                    bindings: tracks[k].key,
                })
            &&& 0 <= k < n ==> forall|i: int|
                0 <= i < rest.len() ==> {
                    let p = r.partials[all_reported(tracks, n) + all_unfinished(nfa, tracks, k) + i];
                    &&& p.anchor_ts == (#[trigger] rest[i]).anchor_ts
                    &&& p.step_reached == rest[i].step_reached
                    &&& fills_in(tracks[k].bound, p.bindings)
                }
        }),
{
    if let SequenceMatchState::NfaWithBindings(bs) = state {
        let tracks = binding_track_views(bs.tracks@);
        lemma_tracks_partials(nfa, tracks, tracks.len() as int, k);
    }
}

} // verus!
