//! Sequence matching: pattern programs, the automaton simulator, the
//! step-counter fast path, and the operator that ties them together.

pub mod agreement;
pub mod bindings;
pub mod emit;
pub mod emit_laws;
pub mod loss_laws;
pub mod nfa;
pub mod nfa_laws;
pub mod operator_laws;
pub mod output;
pub mod output_laws;
pub mod pattern;
pub mod progress_laws;
pub mod row_laws;
pub mod step_complete;
pub mod step_counter;
pub mod step_laws;

use vstd::prelude::*;
use vstd::string::*;

use self::bindings::{BindingTrack, BindingTrackView, BindingValue, BindingValueCache,
    BindingView, EntityBindingState, binding_track_views, binding_views, bound_or_empty,
    duplicate_values, fill_unbound};
use self::emit::{normalize_emit_all_rows, normalized};
use self::nfa::{CompletionView, EntityNfaState, MatchCompletion, NfaSimulator, PartialMatch,
    PartialView, PredicateCache, after_rows, completion_views, event_columns, finished, fresh_model,
    partial_views};
use self::output::{OutputRow, RowView, binding_rank, bracket_steps, build_rows, completion_steps,
    completions_expanded, duration_of, durations_fit, output_cell, output_cells, output_fits,
    output_rows, output_type_ok, partial_steps, partials_expanded, row_views, show_rows, shows,
    track_rows};
use self::pattern::{BracketSpec, CompiledNfa, PatternClass, TimeRange, VariableBindingDef};
use self::step_counter::{StepCounterSimulator, StepCounterState, StepModel, after_step_rows,
    finished_steps, fresh_steps, linear_wf, tracks_ok};
use crate::columnar::{Batch, CellView, batch_view, no_nulls, storable, storable_cells};
use crate::error::{BqliteError, QueryWarning};
use crate::operator::{Accumulator, DemandCapabilities, EntityOperator};
use crate::schema::{BqlType, ColumnDef, ColumnView, OperatorSchema, column_position, column_view};
use crate::text::{text_in, text_views};
use crate::value::EntityId;

verus! {

/// How a pattern is executed.
#[derive(Debug, Clone, Copy, PartialEq, Eq, Structural)]
pub enum MatchStrategy {
    /// The step counter.
    StepCounter,
    /// Consecutive matching, for which the step counter is used too.
    ConsecutiveMatcher,
    /// The automaton simulator.
    FullNfa,
}

/// The strategy for a pattern class. Where the events of a match are wanted, it
/// is always the automaton.
pub open spec fn strategy_for(class: PatternClass, track_match_events: bool) -> MatchStrategy {
    if track_match_events {
        MatchStrategy::FullNfa
    } else {
        match class {
            PatternClass::GeneralNfa => MatchStrategy::FullNfa,
            PatternClass::LinearImmediate => MatchStrategy::ConsecutiveMatcher,
            _ => MatchStrategy::StepCounter,
        }
    }
}

/// The strategy for a pattern class.
pub fn select_strategy(class: PatternClass, track_match_events: bool) -> (r: MatchStrategy)
    ensures
        r == strategy_for(class, track_match_events),
{
    if track_match_events {
        return MatchStrategy::FullNfa;
    }
    match class {
        PatternClass::GeneralNfa => MatchStrategy::FullNfa,
        PatternClass::LinearImmediate => MatchStrategy::ConsecutiveMatcher,
        _ => MatchStrategy::StepCounter,
    }
}

/// The part of a plan below an operator, as far as it decides where a match may
/// begin.
#[derive(Debug)]
pub enum PhysicalPlan {
    /// A table scan with the range that the query asks for.
    Scan { query_range: Option<TimeRange> },
    FusedSegment { input: Box<PhysicalPlan> },
    SequenceMatch { input: Box<PhysicalPlan> },
    Aggregate { input: Box<PhysicalPlan> },
    Sort { input: Box<PhysicalPlan> },
    Distinct { input: Box<PhysicalPlan> },
    /// Any other node.
    Other,
}

/// The range of the scan that feeds a plan, if nothing between changes it.
pub open spec fn entry_range_of(plan: PhysicalPlan) -> Option<TimeRange>
    decreases plan,
{
    match plan {
        PhysicalPlan::Scan { query_range } => query_range,
        PhysicalPlan::FusedSegment { input } => entry_range_of(*input),
        PhysicalPlan::SequenceMatch { input } => entry_range_of(*input),
        PhysicalPlan::Aggregate { input } => entry_range_of(*input),
        PhysicalPlan::Sort { input } => entry_range_of(*input),
        PhysicalPlan::Distinct { input } => entry_range_of(*input),
        PhysicalPlan::Other => None,
    }
}

/// The range of the scan that feeds a plan.
pub fn source_entry_range(plan: &PhysicalPlan) -> (r: Option<TimeRange>)
    ensures
        r == entry_range_of(*plan),
    decreases plan,
{
    match plan {
        PhysicalPlan::Scan { query_range } => *query_range,
        PhysicalPlan::FusedSegment { input } => source_entry_range(input),
        PhysicalPlan::SequenceMatch { input } => source_entry_range(input),
        PhysicalPlan::Aggregate { input } => source_entry_range(input),
        PhysicalPlan::Sort { input } => source_entry_range(input),
        PhysicalPlan::Distinct { input } => source_entry_range(input),
        PhysicalPlan::Other => None,
    }
}

/// What the planner says of a match operator.
#[derive(Debug)]
pub struct SequenceMatchPhysical {
    pub compiled_nfa: CompiledNfa,
    pub match_all: bool,
    pub strategy: MatchStrategy,
    pub input: PhysicalPlan,
    pub output_schema: OperatorSchema,
    /// Whether an aggregate is fused into the operator. `output_schema` is then
    /// that of the aggregate.
    pub fused_aggregate: bool,
}

/// Executes a pattern with one of the two simulators.
#[derive(Debug)]
pub enum StrategyDriver {
    StepCounter(StepCounterSimulator),
    Nfa(NfaSimulator),
}

/// The content of a [`StrategyDriver`].
pub struct DriverView {
    pub stepping: bool,
    pub nfa: CompiledNfa,
    pub match_all: bool,
    pub limit: nat,
    pub entry_range: Option<TimeRange>,
}

impl View for StrategyDriver {
    type V = DriverView;

    open spec fn view(&self) -> DriverView {
        match self {
            StrategyDriver::StepCounter(sim) => DriverView {
                stepping: true,
                nfa: sim.setup().nfa,
                match_all: sim.setup().match_all,
                limit: sim.setup().limit,
                entry_range: sim.setup().entry_range,
            },
            StrategyDriver::Nfa(sim) => DriverView {
                stepping: false,
                nfa: sim.setup().nfa,
                match_all: sim.setup().match_all,
                limit: sim.setup().limit,
                entry_range: sim.setup().entry_range,
            },
        }
    }
}

impl StrategyDriver {
    /// The simulator is well formed.
    pub open spec fn wf(&self) -> bool {
        match self {
            StrategyDriver::StepCounter(sim) => sim.wf(),
            StrategyDriver::Nfa(sim) => sim.wf(),
        }
    }

    /// The pattern.
    pub fn nfa(&self) -> (r: &CompiledNfa)
        ensures
            *r == self@.nfa,
    {
        match self {
            StrategyDriver::StepCounter(sim) => sim.nfa(),
            StrategyDriver::Nfa(sim) => sim.nfa(),
        }
    }
}

/// Whether a pattern can be executed by a strategy.
pub open spec fn strategy_fits(nfa: &CompiledNfa, strategy: MatchStrategy) -> bool {
    if strategy == MatchStrategy::FullNfa {
        nfa.wf()
    } else {
        linear_wf(nfa)
    }
}

/// Sets up a simulator.
fn build_strategy(
    compiled_nfa: CompiledNfa,
    strategy: MatchStrategy,
    match_all: bool,
    entry_range: Option<TimeRange>,
) -> (r: StrategyDriver)
    requires
        strategy_fits(&compiled_nfa, strategy),
    ensures
        r.wf(),
        r@ == (DriverView {
            stepping: strategy != MatchStrategy::FullNfa,
            nfa: compiled_nfa,
            match_all,
            limit: 10_000,
            entry_range,
        }),
{
    match strategy {
        MatchStrategy::StepCounter => StrategyDriver::StepCounter(
            StepCounterSimulator::new(compiled_nfa, match_all).with_entry_range(entry_range),
        ),
        MatchStrategy::ConsecutiveMatcher => StrategyDriver::StepCounter(
            StepCounterSimulator::new(compiled_nfa, match_all).with_entry_range(entry_range),
        ),
        MatchStrategy::FullNfa => StrategyDriver::Nfa(
            NfaSimulator::new(compiled_nfa, match_all).with_entry_range(entry_range),
        ),
    }
}

/// The columns that every pattern reads.
pub open spec fn basic_columns() -> Seq<Seq<char>> {
    seq!["entity_id"@, "ts"@, "event_type"@]
}

/// The columns read after those of the first `n` variables were added, each
/// once.
pub open spec fn with_variable_columns(
    names: Seq<Seq<char>>,
    variables: Seq<VariableBindingDef>,
    n: int,
) -> Seq<Seq<char>>
    decreases n,
{
    if n <= 0 {
        names
    } else {
        let before = with_variable_columns(names, variables, n - 1);
        if before.contains(variables[n - 1].source_column@) {
            before
        } else {
            before.push(variables[n - 1].source_column@)
        }
    }
}

/// The columns that a pattern reads.
pub open spec fn columns_read(nfa: &CompiledNfa, with_session: bool) -> Seq<Seq<char>> {
    let names = if with_session {
        basic_columns().push("session_id"@)
    } else {
        basic_columns()
    };
    with_variable_columns(names, nfa.variable_bindings@, nfa.variable_bindings@.len() as int)
}

/// The columns that a pattern reads.
fn required_names(nfa: &CompiledNfa, with_session: bool) -> (r: Vec<String>)
    ensures
        text_views(r@) == columns_read(nfa, with_session),
{
    let mut names: Vec<String> = Vec::new();
    names.push("entity_id".to_owned());
    names.push("ts".to_owned());
    names.push("event_type".to_owned());
    if with_session {
        names.push("session_id".to_owned());
        assert(text_views(names@) =~= basic_columns().push("session_id"@));
    } else {
        assert(text_views(names@) =~= basic_columns());
    }
    let ghost start = text_views(names@);
    let mut i: usize = 0;
    while i < nfa.variable_bindings.len()
        invariant
            i <= nfa.variable_bindings@.len(),
            text_views(names@) == with_variable_columns(
                start,
                nfa.variable_bindings@,
                i as int,
            ),
        decreases nfa.variable_bindings@.len() - i,
    {
        let column: &String = &nfa.variable_bindings[i].source_column;
        if !text_in(&names, column.as_str()) {
            let ghost before = text_views(names@);
            names.push(column.clone());
            assert(text_views(names@) =~= before.push(column@));
        }
        i = i + 1;
    }
    names
}

/// The columns that the matcher itself shows.
pub open spec fn match_columns(emit_all: bool, bracketed: bool) -> Seq<ColumnView> {
    let entity = column_view("entity_id"@, BqlType::String, false);
    let duration = column_view("match_duration"@, BqlType::Int, true);
    let step = column_view("step_reached"@, BqlType::Int, false);
    let bracket = column_view("bracket"@, BqlType::Int, false);
    let end = column_view("bracket_end"@, BqlType::Int, false);
    seq![entity, duration] + (if emit_all {
        seq![step]
    } else {
        Seq::empty()
    }) + (if bracketed {
        seq![bracket, end]
    } else {
        Seq::empty()
    })
}

/// The schema of the columns that the matcher itself shows.
fn build_match_output_schema(emit_all: bool, bracketed: bool) -> (r: OperatorSchema)
    ensures
        r@ == match_columns(emit_all, bracketed),
{
    let mut cols: Vec<ColumnDef> = Vec::new();
    cols.push(ColumnDef::required("entity_id", BqlType::String));
    cols.push(ColumnDef::nullable("match_duration", BqlType::Int));
    if emit_all {
        cols.push(ColumnDef::required("step_reached", BqlType::Int));
    }
    if bracketed {
        cols.push(ColumnDef::required("bracket", BqlType::Int));
        cols.push(ColumnDef::required("bracket_end", BqlType::Int));
    }
    let r = OperatorSchema { columns: cols };
    assert(r@ =~= match_columns(emit_all, bracketed));
    r
}

/// The operator of a match stage.
#[derive(Debug)]
pub struct SequenceMatchOperator {
    pub strategy: StrategyDriver,
    /// Whether matching goes on after a completed match.
    pub match_all: bool,
    /// Whether unfinished matches are reported.
    pub emit_all: bool,
    /// The number of steps of the pattern.
    pub num_steps: u8,
    pub output_schema: OperatorSchema,
    pub required_column_names: Vec<String>,
    pub num_variables: usize,
    /// Whether an aggregate is fused into the operator.
    pub fused_aggregate: bool,
    /// The matcher's own schema, where `output_schema` is that of an aggregate.
    pub match_output_schema: Option<OperatorSchema>,
}

/// What an operator knows of one entity.
#[derive(Debug)]
pub enum SequenceMatchState {
    /// Of a linear pattern.
    StepCounter(Box<StepCounterState>),
    /// Of any other pattern with variables.
    NfaWithBindings(EntityBindingState),
    /// Of any other pattern.
    NfaSingle(EntityNfaState),
}

/// One number added to another, up to the largest.
pub open spec fn saturating_sum(a: u64, b: u64) -> u64 {
    if a + b <= u64::MAX {
        (a + b) as u64
    } else {
        u64::MAX
    }
}

/// Completed matches with the given bound values.
pub open spec fn completions_bound(cs: Seq<CompletionView>, key: Seq<BindingView>) -> Seq<
    CompletionView,
> {
    Seq::new(cs.len(), |i: int| CompletionView { bindings: key, ..cs[i] })
}

/// Unfinished matches with the given bound values.
pub open spec fn partials_bound(ps: Seq<PartialView>, key: Seq<BindingView>) -> Seq<PartialView> {
    Seq::new(ps.len(), |i: int| PartialView { bindings: key, ..ps[i] })
}

/// The completed matches of the first `n` tracks.
pub open spec fn tracks_completions(tracks: Seq<BindingTrackView>, n: int) -> Seq<CompletionView>
    decreases n,
{
    if n <= 0 {
        Seq::empty()
    } else {
        tracks_completions(tracks, n - 1) + completions_bound(
            tracks[n - 1].nfa.completions,
            tracks[n - 1].key,
        )
    }
}

/// The unfinished matches already reported by the first `n` tracks.
pub open spec fn tracks_partials(tracks: Seq<BindingTrackView>, n: int) -> Seq<PartialView>
    decreases n,
{
    if n <= 0 {
        Seq::empty()
    } else {
        tracks_partials(tracks, n - 1) + partials_bound(
            tracks[n - 1].nfa.partials,
            tracks[n - 1].key,
        )
    }
}

/// The unfinished matches that the first `n` tracks report at the end.
pub open spec fn tracks_final_partials(
    nfa: &CompiledNfa,
    tracks: Seq<BindingTrackView>,
    n: int,
) -> Seq<PartialView>
    decreases n,
{
    if n <= 0 {
        Seq::empty()
    } else {
        tracks_final_partials(nfa, tracks, n - 1) + partials_bound(
            finished(nfa, tracks[n - 1].nfa).partials,
            bound_or_empty(tracks[n - 1].bound),
        )
    }
}

/// How many candidates the first `n` tracks dropped, added to `start`.
pub open spec fn tracks_dropped(start: u64, tracks: Seq<BindingTrackView>, n: int) -> u64
    decreases n,
{
    if n <= 0 {
        start
    } else {
        saturating_sum(tracks_dropped(start, tracks, n - 1), tracks[n - 1].nfa.dropped_count)
    }
}

/// What an entity leaves behind, before it is decided which unfinished matches
/// are reported.
pub struct RawResults {
    pub completions: Seq<CompletionView>,
    pub partials: Seq<PartialView>,
    pub dropped: u64,
}

/// What an entity leaves behind.
pub open spec fn raw_results(nfa: &CompiledNfa, state: SequenceMatchState) -> RawResults {
    match state {
        SequenceMatchState::StepCounter(sc) => {
            let m = finished_steps(nfa, sc@);
            RawResults { completions: m.completions, partials: m.partials, dropped: m.dropped }
        },
        SequenceMatchState::NfaSingle(st) => {
            let m = finished(nfa, st@);
            RawResults {
                completions: m.completions,
                partials: m.partials,
                dropped: st@.dropped_count,
            }
        },
        SequenceMatchState::NfaWithBindings(bs) => {
            let tracks = binding_track_views(bs.tracks@);
            let n = tracks.len() as int;
            RawResults {
                completions: tracks_completions(tracks, n),
                partials: if nfa.emit_all {
                    tracks_partials(tracks, n) + tracks_final_partials(nfa, tracks, n)
                } else {
                    Seq::empty()
                },
                dropped: tracks_dropped(bs.dropped_track_count, tracks, n),
            }
        },
    }
}

/// Adds completed matches with the given bound values.
fn append_completions(
    out: &mut Vec<MatchCompletion>,
    list: &Vec<MatchCompletion>,
    key: &Vec<BindingValue>,
)
    ensures
        completion_views(final(out)@) == completion_views(old(out)@) + completions_bound(
            completion_views(list@),
            binding_views(key@),
        ),
{
    let ghost before = completion_views(out@);
    let ghost want = completions_bound(completion_views(list@), binding_views(key@));
    let mut i: usize = 0;
    assert(completion_views(out@) =~= before + want.take(0));
    while i < list.len()
        invariant
            i <= list@.len() == want.len(),
            want == completions_bound(completion_views(list@), binding_views(key@)),
            completion_views(out@) == before + want.take(i as int),
        decreases list@.len() - i,
    {
        let ghost out0 = completion_views(out@);
        out.push(
            MatchCompletion {
                anchor_ts: list[i].anchor_ts,
                final_ts: list[i].final_ts,
                bindings: duplicate_values(key.as_slice()),
            },
        );
        proof {
            assert(completion_views(out@) =~= out0.push(out@.last()@));
            assert(out@.last()@ == want[i as int]);
            assert(want.take(i + 1) =~= want.take(i as int).push(want[i as int]));
            assert(completion_views(out@) =~= before + want.take(i + 1));
        }
        i = i + 1;
    }
    assert(want.take(want.len() as int) =~= want);
}

/// Adds unfinished matches with the given bound values.
fn append_partials(
    out: &mut Vec<PartialMatch>,
    list: &Vec<PartialMatch>,
    key: &Vec<BindingValue>,
)
    ensures
        partial_views(final(out)@) == partial_views(old(out)@) + partials_bound(
            partial_views(list@),
            binding_views(key@),
        ),
{
    let ghost before = partial_views(out@);
    let ghost want = partials_bound(partial_views(list@), binding_views(key@));
    let mut i: usize = 0;
    assert(partial_views(out@) =~= before + want.take(0));
    while i < list.len()
        invariant
            i <= list@.len() == want.len(),
            want == partials_bound(partial_views(list@), binding_views(key@)),
            partial_views(out@) == before + want.take(i as int),
        decreases list@.len() - i,
    {
        let ghost out0 = partial_views(out@);
        out.push(
            PartialMatch {
                anchor_ts: list[i].anchor_ts,
                step_reached: list[i].step_reached,
                bindings: duplicate_values(key.as_slice()),
            },
        );
        proof {
            assert(partial_views(out@) =~= out0.push(out@.last()@));
            assert(out@.last()@ == want[i as int]);
            assert(want.take(i + 1) =~= want.take(i as int).push(want[i as int]));
            assert(partial_views(out@) =~= before + want.take(i + 1));
        }
        i = i + 1;
    }
    assert(want.take(want.len() as int) =~= want);
}

impl SequenceMatchOperator {
    /// The operator is set up consistently.
    pub open spec fn wf(&self) -> bool {
        &&& self.strategy.wf()
        &&& self.match_all == self.strategy@.match_all
        &&& self.emit_all == self.strategy@.nfa.emit_all
        &&& self.num_variables == self.strategy@.nfa.variable_bindings@.len()
        &&& self.strategy@.nfa.brackets matches Some(spec) ==> spec.durations@.len() <= i64::MAX
        &&& self.fused_aggregate ==> self.match_output_schema is Some
        &&& self.match_output_schema matches Some(s) ==> s@ == match_columns(
            self.emit_all,
            self.strategy@.nfa.brackets is Some,
        )
    }

    /// Whether a state belongs to this operator.
    pub open spec fn owns(&self, state: &SequenceMatchState) -> bool {
        let nfa = self.strategy@.nfa;
        match state {
            SequenceMatchState::StepCounter(sc) => self.strategy@.stepping && tracks_ok(
                &nfa,
                sc@.tracks,
            ),
            SequenceMatchState::NfaSingle(st) => !self.strategy@.stepping && st@.deques.len()
                == nfa.states@.len(),
            SequenceMatchState::NfaWithBindings(bs) => !self.strategy@.stepping && forall|i: int|
                0 <= i < bs.tracks@.len() ==> (#[trigger] bs.tracks@[i])@.nfa.deques.len()
                    <= nfa.states@.len(),
        }
    }

    /// The completed matches of a state.
    pub open spec fn found(&self, state: &SequenceMatchState) -> Seq<CompletionView> {
        raw_results(&self.strategy@.nfa, *state).completions
    }

    /// Whether `partials` are the unfinished matches to report of a state.
    pub open spec fn reports(&self, state: &SequenceMatchState, partials: Seq<PartialView>) -> bool {
        normalized(
            self.match_all,
            self.emit_all,
            self.found(state),
            raw_results(&self.strategy@.nfa, *state).partials,
            partials,
        )
    }

    /// The rows of a result.
    pub open spec fn rows(&self, state: &SequenceMatchState, partials: Seq<PartialView>) -> Seq<
        RowView,
    > {
        output_rows(
            self.found(state),
            partials,
            self.emit_all,
            self.num_steps,
            self.strategy@.nfa.brackets,
        )
    }

    /// An operator for a planned match. The plan keeps the `bracket` column of a
    /// pattern with brackets.
    pub fn new(desc: SequenceMatchPhysical) -> (r: Self)
        requires
            strategy_fits(&desc.compiled_nfa, desc.strategy),
            desc.compiled_nfa.brackets matches Some(spec) ==> spec.durations@.len() <= i64::MAX,
            desc.fused_aggregate || desc.compiled_nfa.brackets is None || column_position(
                desc.output_schema@,
                "bracket"@,
                0,
            ) is Some,
        ensures
            r.wf(),
            r.strategy@ == (DriverView {
                stepping: desc.strategy != MatchStrategy::FullNfa,
                nfa: desc.compiled_nfa,
                match_all: desc.match_all,
                limit: 10_000,
                entry_range: entry_range_of(desc.input),
            }),
            r.num_steps == desc.compiled_nfa.accept_state as u8,
            r.output_schema@ == desc.output_schema@,
            text_views(r.required_column_names@) == columns_read(
                &desc.compiled_nfa,
                desc.compiled_nfa.session_window,
            ),
            r.fused_aggregate == desc.fused_aggregate,
            r.match_output_schema is Some == desc.fused_aggregate,
    {
        let entry_range = source_entry_range(&desc.input);
        let names = required_names(&desc.compiled_nfa, desc.compiled_nfa.session_window);
        let emit_all: bool = desc.compiled_nfa.emit_all;
        let num_steps: u8 = #[verifier::truncate] (desc.compiled_nfa.accept_state as u8);
        let num_variables: usize = desc.compiled_nfa.variable_bindings.len();
        let match_output_schema = if desc.fused_aggregate {
            Some(build_match_output_schema(emit_all, desc.compiled_nfa.brackets.is_some()))
        } else {
            None
        };
        let strategy = build_strategy(
            desc.compiled_nfa,
            desc.strategy,
            desc.match_all,
            entry_range,
        );
        SequenceMatchOperator {
            strategy,
            match_all: desc.match_all,
            emit_all,
            num_steps,
            output_schema: desc.output_schema,
            required_column_names: names,
            num_variables,
            fused_aggregate: desc.fused_aggregate,
            match_output_schema,
        }
    }

    /// An operator for a pattern alone, which may begin at any time.
    pub fn from_compiled_nfa(
        compiled_nfa: CompiledNfa,
        match_all: bool,
        output_schema: OperatorSchema,
    ) -> (r: Self)
        requires
            strategy_fits(&compiled_nfa, strategy_for(compiled_nfa.pattern_class, false)),
            compiled_nfa.brackets matches Some(spec) ==> spec.durations@.len() <= i64::MAX,
        ensures
            r.wf(),
            r.strategy@ == (DriverView {
                stepping: strategy_for(compiled_nfa.pattern_class, false)
                    != MatchStrategy::FullNfa,
                nfa: compiled_nfa,
                match_all,
                limit: 10_000,
                entry_range: None,
            }),
            r.num_steps == compiled_nfa.accept_state as u8,
            r.output_schema == output_schema,
            text_views(r.required_column_names@) == columns_read(&compiled_nfa, false),
            !r.fused_aggregate,
            r.match_output_schema is None,
    {
        let strategy_kind = select_strategy(compiled_nfa.pattern_class, false);
        let names = required_names(&compiled_nfa, false);
        let emit_all: bool = compiled_nfa.emit_all;
        let num_steps: u8 = #[verifier::truncate] (compiled_nfa.accept_state as u8);
        let num_variables: usize = compiled_nfa.variable_bindings.len();
        let strategy = build_strategy(compiled_nfa, strategy_kind, match_all, None);
        SequenceMatchOperator {
            strategy,
            match_all,
            emit_all,
            num_steps,
            output_schema,
            required_column_names: names,
            num_variables,
            fused_aggregate: false,
            match_output_schema: None,
        }
    }

    /// The time brackets of the pattern.
    fn brackets(&self) -> (r: Option<&BracketSpec>)
        ensures
            match (r, self.strategy@.nfa.brackets) {
                (Some(a), Some(b)) => *a == b,
                (None, None) => true,
                _ => false,
            },
    {
        self.strategy.nfa().brackets.as_ref()
    }

    /// Takes in a sub-batch of one entity, sorted by time, of which the
    /// predicates and the variables of the pattern were already evaluated.
    pub fn process_evaluated(
        &self,
        state: &mut SequenceMatchState,
        batch: &Batch,
        pred_cache: &PredicateCache,
        binding_cache: &BindingValueCache,
    )
        requires
            self.wf(),
            self.owns(old(state)),
            !(*old(state) is NfaWithBindings),
            pred_cache.covers(
                self.strategy@.nfa.predicate_count(),
                batch_view(*batch).rows as int,
            ),
        ensures
            self.owns(final(state)),
            self.took_in(*old(state), *final(state), batch, *pred_cache, *binding_cache),
    {
        match state {
            SequenceMatchState::StepCounter(sc) => match &self.strategy {
                StrategyDriver::StepCounter(sim) => {
                    sim.process_batch(sc, batch, "event_type", "ts", pred_cache, binding_cache);
                },
                StrategyDriver::Nfa(_) => {},
            },
            SequenceMatchState::NfaSingle(st) => match &self.strategy {
                StrategyDriver::Nfa(sim) => {
                    sim.process_batch(st, batch, "event_type", "ts", pred_cache);
                },
                StrategyDriver::StepCounter(_) => {},
            },
            SequenceMatchState::NfaWithBindings(_) => {},
        }
    }

    /// Whether a state is what becomes of another by taking in a sub-batch.
    pub open spec fn took_in(
        &self,
        before: SequenceMatchState,
        after: SequenceMatchState,
        batch: &Batch,
        pred_cache: PredicateCache,
        binding_cache: BindingValueCache,
    ) -> bool {
        let events = event_columns(batch_view(*batch), "event_type"@, "ts"@);
        match (before, after) {
            (SequenceMatchState::StepCounter(s0), SequenceMatchState::StepCounter(s1)) => s1@ == (
            match (events, self.strategy) {
                (Some((types, stamps)), StrategyDriver::StepCounter(sim)) => after_step_rows(
                    sim.setup(),
                    s0@,
                    types,
                    stamps,
                    pred_cache,
                    binding_cache,
                    0,
                ),
                _ => s0@,
            }),
            (SequenceMatchState::NfaSingle(s0), SequenceMatchState::NfaSingle(s1)) => s1@ == (
            match (events, self.strategy) {
                (Some((types, stamps)), StrategyDriver::Nfa(sim)) => after_rows(
                    sim.setup(),
                    s0@,
                    types,
                    stamps,
                    pred_cache,
                    0,
                ),
                _ => s0@,
            }),
            _ => false,
        }
    }
}

impl SequenceMatchOperator {
    /// What an entity leaves behind: its completed matches, all of its unfinished
    /// ones, and how many candidates were dropped.
    fn raw_state(&self, state: SequenceMatchState) -> (r: (
        Vec<MatchCompletion>,
        Vec<PartialMatch>,
        u64,
    ))
        requires
            self.wf(),
            self.owns(&state),
        ensures
            completion_views(r.0@) == raw_results(&self.strategy@.nfa, state).completions,
            partial_views(r.1@) == raw_results(&self.strategy@.nfa, state).partials,
            r.2 == raw_results(&self.strategy@.nfa, state).dropped,
    {
        match state {
            SequenceMatchState::StepCounter(sc) => {
                let mut sc: StepCounterState = *sc;
                match &self.strategy {
                    StrategyDriver::StepCounter(sim) => sim.finish_entity(&mut sc),
                    StrategyDriver::Nfa(_) => {},
                }
                let dropped: u64 = sc.dropped_count();
                (sc.completions, sc.partials, dropped)
            },
            SequenceMatchState::NfaSingle(st) => {
                let dropped: u64 = st.dropped_count();
                match &self.strategy {
                    StrategyDriver::Nfa(sim) => {
                        let done = sim.finish_entity(st);
                        (done.completions, done.partials, dropped)
                    },
                    StrategyDriver::StepCounter(_) => (Vec::new(), Vec::new(), 0),
                }
            },
            SequenceMatchState::NfaWithBindings(bs) => match &self.strategy {
                StrategyDriver::Nfa(sim) => finish_tracks(sim, bs),
                StrategyDriver::StepCounter(_) => (Vec::new(), Vec::new(), 0),
            },
        }
    }

    /// The results of an entity: its completed matches, the unfinished ones to
    /// report, and how many candidates were dropped.
    fn finalize_state(&self, state: SequenceMatchState) -> (r: (
        Vec<MatchCompletion>,
        Vec<PartialMatch>,
        u64,
    ))
        requires
            self.wf(),
            self.owns(&state),
        ensures
            completion_views(r.0@) == self.found(&state),
            self.reports(&state, partial_views(r.1@)),
            r.2 == raw_results(&self.strategy@.nfa, state).dropped,
    {
        let (completions, partials, dropped) = self.raw_state(state);
        let reported = normalize_emit_all_rows(
            self.match_all,
            self.emit_all,
            &completions,
            partials,
        );
        (completions, reported, dropped)
    }
}

/// What the tracks of an entity leave behind. The completed matches and the
/// unfinished ones already known come first, those still open last.
fn finish_tracks(sim: &NfaSimulator, state: EntityBindingState) -> (r: (
    Vec<MatchCompletion>,
    Vec<PartialMatch>,
    u64,
))
    requires
        sim.wf(),
        forall|i: int|
            0 <= i < state.tracks@.len() ==> (#[trigger] state.tracks@[i])@.nfa.deques.len()
                <= sim.nfa.states@.len(),
    ensures
        ({
            let raw = raw_results(&sim.nfa, SequenceMatchState::NfaWithBindings(state));
            &&& completion_views(r.0@) == raw.completions
            &&& partial_views(r.1@) == raw.partials
            &&& r.2 == raw.dropped
        }),
{
    let ghost tracks = binding_track_views(state.tracks@);
    let emit_all: bool = sim.nfa.emit_all;
    let mut completions: Vec<MatchCompletion> = Vec::new();
    let mut partials: Vec<PartialMatch> = Vec::new();
    let mut i: usize = 0;
    assert(completion_views(completions@) =~= tracks_completions(tracks, 0));
    assert(partial_views(partials@) =~= Seq::empty());
    while i < state.tracks.len()
        invariant
            i <= state.tracks@.len(),
            tracks == binding_track_views(state.tracks@),
            completion_views(completions@) == tracks_completions(tracks, i as int),
            partial_views(partials@) == (if emit_all {
                tracks_partials(tracks, i as int)
            } else {
                Seq::empty()
            }),
        decreases state.tracks@.len() - i,
    {
        let track: &BindingTrack = &state.tracks[i];
        assert(tracks[i as int] == track@);
        append_completions(&mut completions, &track.nfa_state.completions, &track.key);
        if emit_all {
            append_partials(&mut partials, &track.nfa_state.partials, &track.key);
        }
        i = i + 1;
    }
    let ghost known = partial_views(partials@);
    let mut dropped: u64 = state.dropped_track_count;
    let mut open: Vec<BindingTrack> = state.tracks;
    let ghost all = open@;
    let mut k: usize = 0;
    assert(partial_views(partials@) =~= (if emit_all {
        known + tracks_final_partials(&sim.nfa, tracks, 0)
    } else {
        Seq::empty()
    }));
    while k < open.len()
        invariant
            k <= open@.len() == all.len() == tracks.len(),
            tracks == binding_track_views(all),
            sim.wf(),
            emit_all == sim.nfa.emit_all,
            forall|j: int| k <= j < open@.len() ==> #[trigger] open@[j] == all[j],
            forall|j: int|
                0 <= j < all.len() ==> (#[trigger] all[j])@.nfa.deques.len()
                    <= sim.nfa.states@.len(),
            dropped == tracks_dropped(state.dropped_track_count, tracks, k as int),
            partial_views(partials@) == (if emit_all {
                known + tracks_final_partials(&sim.nfa, tracks, k as int)
            } else {
                Seq::empty()
            }),
        decreases open@.len() - k,
    {
        assert(open@[k as int] == all[k as int]);
        assert(tracks[k as int] == all[k as int]@);
        dropped = dropped.saturating_add(open[k].nfa_state.dropped_count());
        if emit_all {
            let bound: Vec<BindingValue> = fill_unbound(&open[k].bound_values);
            let mut last: EntityNfaState = EntityNfaState::new(0);
            std::mem::swap(&mut last, &mut open[k].nfa_state);
            let done: EntityNfaState = sim.finish_entity(last);
            append_partials(&mut partials, &done.partials, &bound);
            assert(partial_views(partials@) =~= known + tracks_final_partials(
                &sim.nfa,
                tracks,
                k + 1,
            ));
        }
        k = k + 1;
    }
    (completions, partials, dropped)
}

/// Every row is about a bracket.
spec fn all_bracketed(rows: Seq<RowView>) -> bool {
    forall|i: int|
        0 <= i < rows.len() ==> (#[trigger] rows[i]).bracket_idx is Some && rows[i].bracket_end
            is Some
}

proof fn lemma_track_rows_bracketed(
    steps: Seq<u8>,
    durations: Seq<i64>,
    match_duration: Option<i64>,
    num_steps: u8,
    bindings: Seq<BindingView>,
    emit_all: bool,
    n: int,
)
    ensures
        all_bracketed(
            track_rows(steps, durations, match_duration, num_steps, bindings, emit_all, n),
        ),
    decreases n,
{
    if n > 0 {
        lemma_track_rows_bracketed(
            steps,
            durations,
            match_duration,
            num_steps,
            bindings,
            emit_all,
            n - 1,
        );
    }
}

proof fn lemma_completions_bracketed(
    completions: Seq<CompletionView>,
    emit_all: bool,
    num_steps: u8,
    durations: Seq<i64>,
    cumulative: bool,
    n: int,
)
    ensures
        all_bracketed(
            completions_expanded(completions, emit_all, num_steps, durations, cumulative, n),
        ),
    decreases n,
{
    if n > 0 {
        let c = completions[n - 1];
        lemma_completions_bracketed(
            completions,
            emit_all,
            num_steps,
            durations,
            cumulative,
            n - 1,
        );
        lemma_track_rows_bracketed(
            bracket_steps(
                cumulative,
                completion_steps(duration_of(c) as int, num_steps, durations),
            ),
            durations,
            Some(duration_of(c)),
            num_steps,
            c.bindings,
            emit_all,
            durations.len() as int,
        );
    }
}

proof fn lemma_partials_bracketed(
    partials: Seq<PartialView>,
    num_steps: u8,
    durations: Seq<i64>,
    cumulative: bool,
    n: int,
)
    ensures
        all_bracketed(partials_expanded(partials, num_steps, durations, cumulative, n)),
    decreases n,
{
    if n > 0 {
        let p = partials[n - 1];
        lemma_partials_bracketed(partials, num_steps, durations, cumulative, n - 1);
        lemma_track_rows_bracketed(
            bracket_steps(cumulative, partial_steps(p.step_reached, durations.len())),
            durations,
            None,
            num_steps,
            p.bindings,
            true,
            durations.len() as int,
        );
    }
}

/// Every result of a pattern can be shown in the matcher's own columns.
pub proof fn lemma_match_columns_fit(
    completions: Seq<CompletionView>,
    partials: Seq<PartialView>,
    emit_all: bool,
    num_steps: u8,
    brackets: Option<BracketSpec>,
)
    ensures
        output_fits(
            match_columns(emit_all, brackets is Some),
            output_rows(completions, partials, emit_all, num_steps, brackets),
        ),
{
    let rows = output_rows(completions, partials, emit_all, num_steps, brackets);
    let columns = match_columns(emit_all, brackets is Some);
    if let Some(spec) = brackets {
        lemma_completions_bracketed(
            completions,
            emit_all,
            num_steps,
            spec.durations@,
            spec.cumulative,
            completions.len() as int,
        );
        lemma_partials_bracketed(
            partials,
            num_steps,
            spec.durations@,
            spec.cumulative,
            partials.len() as int,
        );
        assert(all_bracketed(rows));
    }
    reveal_strlit("entity_id");
    reveal_strlit("match_duration");
    reveal_strlit("step_reached");
    reveal_strlit("bracket");
    reveal_strlit("bracket_end");
    assert forall|i: int| 0 <= i < columns.len() implies {
        &&& output_type_ok(#[trigger] columns[i])
        &&& columns[i].nullable || no_nulls(
            output_cells(columns[i], binding_rank(columns, i), rows),
        )
        &&& storable_cells(output_cells(columns[i], binding_rank(columns, i), rows))
    } by {
        let cells = output_cells(columns[i], binding_rank(columns, i), rows);
        let name = columns[i].name;
        assert(name == "entity_id"@ || name == "match_duration"@ || (emit_all && name
            == "step_reached"@) || (brackets is Some && (name == "bracket"@ || name
            == "bracket_end"@)));
        assert forall|r: int| 0 <= r < rows.len() && !columns[i].nullable implies (
        #[trigger] cells[r]) is Some by {
            assert(cells[r] == output_cell(columns[i], binding_rank(columns, i), rows[r]));
        }
        assert(storable(Seq::<char>::empty()));
        assert forall|r: int| 0 <= r < cells.len() implies (
        #[trigger] cells[r] matches Some(CellView::Str(s)) ==> storable(s)) by {
            assert(cells[r] == output_cell(columns[i], binding_rank(columns, i), rows[r]));
        }
    }
}

impl EntityOperator for SequenceMatchOperator {
    type State = SequenceMatchState;

    /// A pattern without predicates and variables needs nothing evaluated.
    open spec fn accepts(&self, state: &SequenceMatchState, batch: &Batch) -> bool {
        &&& self.wf()
        &&& self.owns(state)
        &&& !(*state is NfaWithBindings)
        &&& self.strategy@.nfa.predicate_count() == 0
        &&& self.num_variables == 0
    }

    open spec fn can_finish(&self, state: &SequenceMatchState) -> bool {
        &&& self.wf()
        &&& self.owns(state)
        &&& durations_fit(self.found(state))
        &&& forall|partials: Seq<PartialView>| #[trigger]
            self.reports(state, partials) ==> output_fits(
                self.output_schema@,
                self.rows(state, partials),
            )
    }

    open spec fn can_feed(&self, state: &SequenceMatchState) -> bool {
        if self.fused_aggregate {
            self.wf() && self.owns(state) && durations_fit(self.found(state))
        } else {
            self.can_finish(state)
        }
    }

    fn create_state(&self, entity_id: &EntityId) -> (r: SequenceMatchState)
        ensures
            match r {
                SequenceMatchState::StepCounter(sc) => self.strategy@.stepping && sc@
                    == fresh_steps(),
                SequenceMatchState::NfaWithBindings(bs) => {
                    &&& !self.strategy@.stepping
                    &&& self.num_variables > 0
                    &&& bs.tracks@.len() == 0
                    &&& bs.dropped_track_count == 0
                    &&& bs.num_variables == self.num_variables
                    &&& bs.num_states == self.strategy@.nfa.states@.len()
                },
                SequenceMatchState::NfaSingle(st) => !self.strategy@.stepping
                    && self.num_variables == 0 && st@ == fresh_model(
                    self.strategy@.nfa.states@.len(),
                ),
            },
            self.owns(&r),
    {
        match &self.strategy {
            StrategyDriver::StepCounter(sim) => SequenceMatchState::StepCounter(
                Box::new(sim.create_state()),
            ),
            StrategyDriver::Nfa(sim) => {
                if self.num_variables > 0 {
                    SequenceMatchState::NfaWithBindings(
                        EntityBindingState::new(self.num_variables, sim.nfa.states.len()),
                    )
                } else {
                    SequenceMatchState::NfaSingle(sim.create_state())
                }
            },
        }
    }

    fn output_schema(&self) -> (r: &OperatorSchema)
        ensures
            *r == self.output_schema,
    {
        &self.output_schema
    }

    fn process_sub_batch(&self, state: &mut SequenceMatchState, batch: &Batch)
        ensures
            self.owns(final(state)),
            exists|pred_cache: PredicateCache, binding_cache: BindingValueCache| #[trigger]
                self.took_in(*old(state), *final(state), batch, pred_cache, binding_cache)
                    && pred_cache.results@.len() == 0 && binding_cache.values@.len() == 0,
    {
        let pred_cache = PredicateCache { results: Vec::new() };
        let binding_cache = BindingValueCache { values: Vec::new() };
        self.process_evaluated(state, batch, &pred_cache, &binding_cache);
    }

    fn finish_entity(&self, state: SequenceMatchState) -> (r: Option<Batch>)
        ensures
            exists|partials: Seq<PartialView>| #[trigger]
                self.reports(&state, partials) && match r {
                    Some(b) => self.rows(&state, partials).len() > 0 && shows(
                        batch_view(b),
                        self.output_schema@,
                        self.rows(&state, partials),
                    ),
                    None => self.rows(&state, partials).len() == 0,
                },
    {
        let (completions, partials, _) = self.finalize_state(state);
        assert(self.reports(&state, partial_views(partials@)));
        let rows: Vec<OutputRow<'_>> = build_rows(
            &completions,
            &partials,
            self.emit_all,
            self.num_steps,
            self.brackets(),
        );
        assert(row_views(rows@) == self.rows(&state, partial_views(partials@)));
        if rows.len() == 0 {
            return None;
        }
        Some(show_rows(&self.output_schema, &rows))
    }

    fn finish_entity_into<A: Accumulator>(
        &self,
        state: SequenceMatchState,
        accumulator: &mut A,
    ) -> (r: Result<(), BqliteError>)
        ensures
            exists|partials: Seq<PartialView>| #[trigger]
                self.reports(&state, partials) && if self.rows(&state, partials).len() > 0 {
                    exists|b: Batch, m: &mut A|
                        {
                            &&& shows(
                                batch_view(b),
                                (if self.fused_aggregate {
                                    match_columns(
                                        self.emit_all,
                                        self.strategy@.nfa.brackets is Some,
                                    )
                                } else {
                                    self.output_schema@
                                }),
                                self.rows(&state, partials),
                            )
                            &&& *m == *old(accumulator)
                            &&& *final(m) == *final(accumulator)
                            &&& #[trigger] call_ensures(A::update_batch, (m, &b), r)
                        }
                } else {
                    r is Ok && *final(accumulator) == *old(accumulator)
                },
    {
        if !self.fused_aggregate {
            return match self.finish_entity(state) {
                Some(batch) => accumulator.update_batch(&batch),
                None => Ok(()),
            };
        }
        let (completions, partials, _) = self.finalize_state(state);
        assert(self.reports(&state, partial_views(partials@)));
        let rows: Vec<OutputRow<'_>> = build_rows(
            &completions,
            &partials,
            self.emit_all,
            self.num_steps,
            self.brackets(),
        );
        assert(row_views(rows@) == self.rows(&state, partial_views(partials@)));
        if rows.len() == 0 {
            return Ok(());
        }
        match &self.match_output_schema {
            Some(schema) => {
                proof {
                    lemma_match_columns_fit(
                        self.found(&state),
                        partial_views(partials@),
                        self.emit_all,
                        self.num_steps,
                        self.strategy@.nfa.brackets,
                    );
                }
                let b = show_rows(schema, &rows);
                accumulator.update_batch(&b)
            },
            None => Ok(()),
        }
    }

    fn take_pending_warnings(&self, state: &mut SequenceMatchState, entity_id: &EntityId) -> (r: Vec<
        QueryWarning,
    >)
        ensures
            match (*old(state), self.strategy) {
                (
                    SequenceMatchState::StepCounter(sc),
                    StrategyDriver::StepCounter(sim),
                ) => if sc@.cap_exceeded {
                    &&& r@.len() == 1
                    &&& r@[0] matches QueryWarning::ActiveStateLimitExceeded {
                        entity_id: id,
                        active_states,
                        cap,
                    } && id@ == entity_id.text() && active_states == saturating_sum(
                        sc@.tracks.len() as u64,
                        sc@.dropped,
                    ) && cap == sim.setup().limit
                    &&& *final(state) matches SequenceMatchState::StepCounter(after) && after@
                        == (StepModel { cap_exceeded: false, ..sc@ })
                } else {
                    r@.len() == 0 && *final(state) == *old(state)
                },
                _ => r@.len() == 0 && *final(state) == *old(state),
            },
    {
        let mut out: Vec<QueryWarning> = Vec::new();
        match state {
            SequenceMatchState::StepCounter(sc) => {
                if sc.cap_exceeded {
                    match &self.strategy {
                        StrategyDriver::StepCounter(sim) => {
                            let tracks: u64 = sc.tracks.len() as u64;
                            sc.cap_exceeded = false;
                            out.push(
                                QueryWarning::ActiveStateLimitExceeded {
                                    entity_id: entity_id.to_text(),
                                    active_states: tracks.saturating_add(sc.dropped_count),
                                    cap: sim.active_state_limit() as u64,
                                },
                            );
                        },
                        StrategyDriver::Nfa(_) => {},
                    }
                }
            },
            _ => {},
        }
        out
    }

    fn required_columns(&self) -> (r: &[String])
        ensures
            r@ == self.required_column_names@,
    {
        self.required_column_names.as_slice()
    }

    fn supported_demands(&self) -> (r: DemandCapabilities)
        ensures
            r == (DemandCapabilities {
                supports_step_reached: true,
                supports_match_count: true,
                supports_full_detail: true,
                supports_aggregation_fusion: true,
                supports_step_property_forwarding: true,
                supports_forwarded_columns: false,
                supports_eager_group_emit: false,
            }),
    {
        DemandCapabilities {
            supports_step_reached: true,
            supports_match_count: true,
            supports_full_detail: true,
            supports_aggregation_fusion: true,
            supports_step_property_forwarding: true,
            supports_forwarded_columns: false,
            supports_eager_group_emit: false,
        }
    }
}

} // verus!
