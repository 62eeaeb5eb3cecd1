//! Sequence matching as an operator.

use std::collections::HashMap;
use std::sync::Arc;

use arrow::array::{Array, Int64Array, StringViewArray};
use arrow::datatypes::{DataType, Field, Schema};
use arrow::record_batch::RecordBatch;

use bqlite_operators::columnar::Batch;
use bqlite_operators::error::{BqliteError, QueryWarning};
use bqlite_operators::matcher::bindings::{BindingTrack, BindingValue};
use bqlite_operators::matcher::nfa::PredicateCache;
use bqlite_operators::matcher::pattern::{
    BracketSpec, CompiledNfa, NfaState, PatternClass, TimeRange, Transition, VariableBindingDef,
};
use bqlite_operators::matcher::{
    select_strategy, source_entry_range, MatchStrategy, PhysicalPlan, SequenceMatchOperator,
    SequenceMatchPhysical, SequenceMatchState, StrategyDriver,
};
use bqlite_operators::operator::{Accumulator, EntityOperator};
use bqlite_operators::schema::{BqlType, ColumnDef, OperatorSchema};
use bqlite_operators::value::EntityId;

fn make_batch(events: &[(&str, i64)]) -> Batch {
    let event_types: Vec<&str> = events.iter().map(|(e, _)| *e).collect();
    let timestamps: Vec<i64> = events.iter().map(|(_, t)| *t).collect();
    let schema = Arc::new(Schema::new(vec![
        Field::new("event_type", DataType::Utf8View, false),
        Field::new("ts", DataType::Int64, false),
    ]));
    let inner = RecordBatch::try_new(
        schema,
        vec![
            Arc::new(StringViewArray::from(event_types)),
            Arc::new(Int64Array::from(timestamps)),
        ],
    )
    .unwrap();
    Batch { inner }
}

fn linear_nfa(steps: &[&str]) -> CompiledNfa {
    let mut states: Vec<NfaState> = steps
        .iter()
        .enumerate()
        .map(|(i, e)| NfaState {
            transitions: vec![Transition {
                event_type: e.to_string(),
                predicates: Vec::new(),
                bind_variables: Vec::new(),
                check_variables: Vec::new(),
                target: (i + 1) as u16,
            }],
            poison_transitions: Vec::new(),
        })
        .collect();
    states.push(NfaState { transitions: Vec::new(), poison_transitions: Vec::new() });
    CompiledNfa {
        states,
        accept_state: steps.len() as u16,
        relevant_event_types: steps.iter().map(|e| e.to_string()).collect(),
        pattern_class: PatternClass::LinearSimple,
        variable_bindings: Vec::new(),
        global_window: None,
        session_window: false,
        emit_all: false,
        brackets: None,
        state_to_step: (0..=steps.len() as u8).collect(),
    }
}

fn match_output_schema() -> OperatorSchema {
    OperatorSchema::new(vec![
        ColumnDef::required("entity_id", BqlType::String),
        ColumnDef::nullable("match_duration", BqlType::Int),
    ])
    .unwrap()
}

fn emit_all_schema() -> OperatorSchema {
    OperatorSchema::new(vec![
        ColumnDef::required("entity_id", BqlType::String),
        ColumnDef::required("step_reached", BqlType::Int),
    ])
    .unwrap()
}

#[test]
fn simple_match_first_completes() {
    let nfa = linear_nfa(&["signup", "purchase"]);
    let op = SequenceMatchOperator::from_compiled_nfa(
        nfa,
        false,
        match_output_schema(),
    );

    let entity = EntityId::String("user1".into());
    let mut state = op.create_state(&entity);

    let batch = make_batch(&[("signup", 100), ("view", 200), ("purchase", 300)]);
    op.process_sub_batch(&mut state, &batch);

    let result = op.finish_entity(state);
    assert!(result.is_some());
    let batch = result.unwrap();
    assert_eq!(batch.inner.num_rows(), 1);

    let durations = batch
        .inner
        .column_by_name("match_duration")
        .unwrap()
        .as_any()
        .downcast_ref::<Int64Array>()
        .unwrap();
    assert_eq!(durations.value(0), 200);
}

#[test]
fn no_match_returns_none() {
    let nfa = linear_nfa(&["signup", "purchase"]);
    let op = SequenceMatchOperator::from_compiled_nfa(nfa, false, match_output_schema());

    let entity = EntityId::String("user1".into());
    let mut state = op.create_state(&entity);

    let batch = make_batch(&[
        ("signup", 100),
        ("view", 200),
    ]);
    op.process_sub_batch(&mut state, &batch);

    let result = op.finish_entity(state);
    assert!(result.is_none());
}

#[test]
fn match_all_returns_multiple() {
    let nfa = linear_nfa(&["signup", "purchase"]);
    let op = SequenceMatchOperator::from_compiled_nfa(
        nfa,
        true,
        match_output_schema(),
    );

    let entity = EntityId::String("user1".into());
    let mut state = op.create_state(&entity);

    let batch = make_batch(&[
        ("signup", 100),
        ("purchase", 200),
        ("signup", 300),
        ("purchase", 400),
    ]);
    op.process_sub_batch(&mut state, &batch);

    let result = op.finish_entity(state);
    assert!(result.is_some());
    let batch = result.unwrap();
    assert_eq!(batch.inner.num_rows(), 2);
}

#[test]
fn match_across_sub_batches() {
    let nfa = linear_nfa(&["signup", "purchase"]);
    let op = SequenceMatchOperator::from_compiled_nfa(nfa, false, match_output_schema());

    let entity = EntityId::String("user1".into());
    let mut state = op.create_state(&entity);

    let batch1 = make_batch(&[("signup", 100)]);
    op.process_sub_batch(&mut state, &batch1);

    let batch2 = make_batch(&[("purchase", 300)]);
    op.process_sub_batch(&mut state, &batch2);

    let result = op.finish_entity(state);
    assert!(result.is_some());
    let batch = result.unwrap();
    assert_eq!(batch.inner.num_rows(), 1);

    let durations = batch
        .inner
        .column_by_name("match_duration")
        .unwrap()
        .as_any()
        .downcast_ref::<Int64Array>()
        .unwrap();
    assert_eq!(durations.value(0), 200);
}

#[test]
fn emit_all_includes_partials() {
    let mut nfa = linear_nfa(&["signup", "purchase", "activate"]);
    nfa.emit_all = true;
    let op = SequenceMatchOperator::from_compiled_nfa(nfa, false, emit_all_schema());

    let entity = EntityId::String("user1".into());
    let mut state = op.create_state(&entity);

    let batch = make_batch(&[("signup", 100), ("purchase", 200)]);
    op.process_sub_batch(&mut state, &batch);

    let result = op.finish_entity(state);
    assert!(result.is_some());
    let batch = result.unwrap();
    assert_eq!(batch.inner.num_rows(), 1);

    let steps = batch
        .inner
        .column_by_name("step_reached")
        .unwrap()
        .as_any()
        .downcast_ref::<Int64Array>()
        .unwrap();
    assert_eq!(steps.value(0), 2);
}

#[test]
fn emit_all_nfa_path_keeps_only_farthest_partial() {
    let mut nfa = linear_nfa(&["signup", "purchase", "activate"]);
    nfa.pattern_class = PatternClass::GeneralNfa;
    nfa.emit_all = true;
    let op = SequenceMatchOperator::from_compiled_nfa(nfa, false, emit_all_schema());

    let entity = EntityId::String("user1".into());
    let mut state = op.create_state(&entity);

    let batch = make_batch(&[("signup", 100), ("purchase", 200)]);
    op.process_sub_batch(&mut state, &batch);

    let result = op.finish_entity(state);
    assert!(result.is_some());
    let batch = result.unwrap();
    assert_eq!(batch.inner.num_rows(), 1);

    let steps = batch
        .inner
        .column_by_name("step_reached")
        .unwrap()
        .as_any()
        .downcast_ref::<Int64Array>()
        .unwrap();
    assert_eq!(steps.value(0), 2);
}

#[test]
fn three_step_match_with_window() {
    let mut nfa = linear_nfa(&["signup", "activate", "purchase"]);
    nfa.global_window = Some(1000);
    let op = SequenceMatchOperator::from_compiled_nfa(nfa, false, match_output_schema());

    let entity = EntityId::String("user1".into());

    let mut state = op.create_state(&entity);
    let batch = make_batch(&[("signup", 100), ("activate", 500), ("purchase", 900)]);
    op.process_sub_batch(&mut state, &batch);
    let result = op.finish_entity(state);
    assert!(result.is_some());

    let mut state2 = op.create_state(&entity);
    let batch2 = make_batch(&[("signup", 100), ("activate", 500), ("purchase", 1200)]);
    op.process_sub_batch(&mut state2, &batch2);
    let result2 = op.finish_entity(state2);
    assert!(result2.is_none());
}

#[test]
fn empty_batch_no_panic() {
    let nfa = linear_nfa(&["signup", "purchase"]);
    let op = SequenceMatchOperator::from_compiled_nfa(nfa, false, match_output_schema());

    let entity = EntityId::String("user1".into());
    let mut state = op.create_state(&entity);

    let batch = make_batch(&[]);
    op.process_sub_batch(&mut state, &batch);

    let result = op.finish_entity(state);
    assert!(result.is_none());
}

#[test]
fn take_pending_warnings_emits_active_state_warning_for_step_counter() {
    let nfa = linear_nfa(&["signup", "purchase"]);
    let op = SequenceMatchOperator::from_compiled_nfa(nfa, false, match_output_schema());

    let entity = EntityId::String("user1".into());
    let mut state = op.create_state(&entity);

    if let SequenceMatchState::StepCounter(sc) = &mut state {
        sc.cap_exceeded = true;
        sc.dropped_count = 7;
    } else {
        panic!("LinearSimple should pick StepCounter strategy");
    }

    let warnings = op.take_pending_warnings(&mut state, &entity);
    assert_eq!(warnings.len(), 1);
    match &warnings[0] {
        QueryWarning::ActiveStateLimitExceeded {
            entity_id,
            active_states,
            cap,
        } => {
            assert_eq!(entity_id, "user1");
            assert_eq!(*active_states, 7);
            assert_eq!(*cap, 10_000);
        }
        other => panic!("expected ActiveStateLimitExceeded, got {other:?}"),
    }

    let again = op.take_pending_warnings(&mut state, &entity);
    assert!(again.is_empty());
}

#[test]
fn take_pending_warnings_empty_when_cap_not_exceeded() {
    let nfa = linear_nfa(&["signup", "purchase"]);
    let op = SequenceMatchOperator::from_compiled_nfa(nfa, false, match_output_schema());
    let entity = EntityId::String("user1".into());
    let mut state = op.create_state(&entity);
    let warnings = op.take_pending_warnings(&mut state, &entity);
    assert!(warnings.is_empty());
}

#[test]
fn nfa_strategy_simple_match() {
    let mut nfa = linear_nfa(&["signup", "purchase"]);
    nfa.pattern_class = PatternClass::GeneralNfa;
    let op = SequenceMatchOperator::from_compiled_nfa(nfa, false, match_output_schema());

    let entity = EntityId::String("user1".into());
    let mut state = op.create_state(&entity);

    let batch = make_batch(&[("signup", 100), ("purchase", 200)]);
    op.process_sub_batch(&mut state, &batch);

    let result = op.finish_entity(state);
    assert!(result.is_some());
    let batch = result.unwrap();
    assert_eq!(batch.inner.num_rows(), 1);
}

#[test]
fn required_columns_includes_basics() {
    let nfa = linear_nfa(&["signup", "purchase"]);
    let op = SequenceMatchOperator::from_compiled_nfa(nfa, false, match_output_schema());

    let cols = op.required_columns();
    assert!(cols.contains(&"entity_id".to_string()));
    assert!(cols.contains(&"ts".to_string()));
    assert!(cols.contains(&"event_type".to_string()));
}

#[test]
fn output_schema_matches() {
    let nfa = linear_nfa(&["signup", "purchase"]);
    let schema = match_output_schema();
    let op = SequenceMatchOperator::from_compiled_nfa(nfa, false, schema.duplicate());
    assert_eq!(op.output_schema().columns().len(), schema.columns().len());
}

fn brackets_with_binding_nfa(brackets: BracketSpec, emit_all: bool) -> CompiledNfa {
    let mut nfa = linear_nfa(&["signup", "purchase"]);
    nfa.states[0].transitions[0].bind_variables = vec![0];
    nfa.states[1].transitions[0].check_variables = vec![0];
    nfa.pattern_class = PatternClass::GeneralNfa;
    nfa.variable_bindings = vec![VariableBindingDef {
        name: "plan".into(),
        source_column: "plan".into(),
        column_index: 2,
        bind_step: 0,
    }];
    nfa.emit_all = emit_all;
    nfa.brackets = Some(brackets);
    nfa
}

fn brackets_bindings_output_schema(emit_all: bool) -> OperatorSchema {
    let mut cols = vec![
        ColumnDef::required("entity_id", BqlType::String),
        ColumnDef::nullable("match_duration", BqlType::Int),
        ColumnDef::required("$plan", BqlType::String),
    ];
    if emit_all {
        cols.push(ColumnDef::required("step_reached", BqlType::Int));
    }
    cols.push(ColumnDef::required("bracket", BqlType::Int));
    cols.push(ColumnDef::required("bracket_end", BqlType::Int));
    OperatorSchema::new(cols).unwrap()
}

/// The track of one plan, which has seen the events with that plan.
fn plan_track(
    op: &SequenceMatchOperator,
    plan: &str,
    events: &[(&str, i64, &str)],
) -> BindingTrack {
    let sim = match &op.strategy {
        StrategyDriver::Nfa(sim) => sim,
        StrategyDriver::StepCounter(_) => panic!("not an automaton"),
    };
    let own: Vec<(&str, i64)> =
        events.iter().filter(|(_, _, p)| *p == plan).map(|(e, t, _)| (*e, *t)).collect();
    let mut nfa_state = sim.create_state();
    let nothing = PredicateCache { results: Vec::new() };
    sim.process_batch(&mut nfa_state, &make_batch(&own), "event_type", "ts", &nothing);
    BindingTrack {
        key: vec![BindingValue::String(plan.to_string())],
        bound_values: vec![Some(BindingValue::String(plan.to_string()))],
        nfa_state,
    }
}

#[test]
fn brackets_compose_with_variable_bindings_emit_all_exclusive() {
    let durations = vec![
        86_400_000_000_000,
        7 * 86_400_000_000_000,
        14 * 86_400_000_000_000,
        30 * 86_400_000_000_000,
    ];
    let nfa = brackets_with_binding_nfa(
        BracketSpec { durations: durations.clone(), cumulative: false },
        true,
    );
    let op =
        SequenceMatchOperator::from_compiled_nfa(nfa, false, brackets_bindings_output_schema(true));

    let entity = EntityId::String("u1".into());
    let mut state = op.create_state(&entity);

    let day = 86_400_000_000_000_i64;
    let events = [
        ("signup", 0, "free"),
        ("signup", 0, "pro"),
        ("purchase", 2 * day, "free"),
        ("purchase", 20 * day, "pro"),
    ];
    match &mut state {
        SequenceMatchState::NfaWithBindings(tracks) => {
            tracks.tracks.push(plan_track(&op, "free", &events));
            tracks.tracks.push(plan_track(&op, "pro", &events));
        }
        other => panic!("{other:?}"),
    }

    let result = op.finish_entity(state).expect("must produce rows").inner;
    assert_eq!(result.num_rows(), 8);

    let plan_arr =
        result.column_by_name("$plan").unwrap().as_any().downcast_ref::<StringViewArray>().unwrap();
    let int_arr = |name: &str| -> Int64Array {
        let column = result.column_by_name(name).unwrap();
        column.as_any().downcast_ref::<Int64Array>().unwrap().clone()
    };
    let bracket_arr = int_arr("bracket");
    let bracket_end_arr = int_arr("bracket_end");
    let step_arr = int_arr("step_reached");

    let mut by_plan: HashMap<String, Vec<(i64, i64, i64)>> = HashMap::new();
    for i in 0..result.num_rows() {
        by_plan.entry(plan_arr.value(i).to_string()).or_default().push((
            bracket_arr.value(i),
            bracket_end_arr.value(i),
            step_arr.value(i),
        ));
    }
    assert_eq!(by_plan.len(), 2, "expected one entry per binding track");
    for entries in by_plan.values_mut() {
        entries.sort_by_key(|(b, _, _)| *b);
    }
    assert_eq!(
        by_plan["free"],
        vec![
            (0, durations[0], 1),
            (1, durations[1], 2),
            (2, durations[2], 0),
            (3, durations[3], 0),
        ],
        "free track per-bracket step_reached and bracket_end"
    );
    assert_eq!(
        by_plan["pro"],
        vec![
            (0, durations[0], 1),
            (1, durations[1], 0),
            (2, durations[2], 0),
            (3, durations[3], 2),
        ],
        "pro track per-bracket step_reached and bracket_end"
    );
}

#[derive(Default)]
struct Taken {
    batches: Vec<RecordBatch>,
}

impl Accumulator for Taken {
    fn update_batch(&mut self, batch: &Batch) -> Result<(), BqliteError> {
        self.batches.push(batch.inner.clone());
        Ok(())
    }
}

fn planned(nfa: CompiledNfa, fused: bool, input: PhysicalPlan) -> SequenceMatchOperator {
    let strategy = select_strategy(nfa.pattern_class, false);
    SequenceMatchOperator::new(SequenceMatchPhysical {
        compiled_nfa: nfa,
        match_all: true,
        strategy,
        input,
        output_schema: match_output_schema(),
        fused_aggregate: fused,
    })
}

#[test]
fn a_fused_aggregate_is_fed_the_columns_of_the_matcher() {
    let mut nfa = linear_nfa(&["signup", "purchase"]);
    nfa.emit_all = true;
    let op = planned(nfa, true, PhysicalPlan::Other);
    let entity = EntityId::String("user1".into());
    let mut taken = Taken::default();
    for events in [vec![("signup", 1), ("purchase", 5)], vec![("signup", 7)]] {
        let mut state = op.create_state(&entity);
        op.process_sub_batch(&mut state, &make_batch(&events));
        op.finish_entity_into(state, &mut taken).unwrap();
    }
    assert_eq!(taken.batches.len(), 2);
    let names: Vec<String> =
        taken.batches[0].schema().fields().iter().map(|f| f.name().clone()).collect();
    assert_eq!(names, vec!["entity_id", "match_duration", "step_reached"]);
    let ints = |i: usize, name: &str| -> Vec<Option<i64>> {
        let column = taken.batches[i].column_by_name(name).unwrap();
        column.as_any().downcast_ref::<Int64Array>().unwrap().iter().collect()
    };
    assert_eq!(ints(0, "match_duration"), vec![Some(4)]);
    assert_eq!(ints(0, "step_reached"), vec![Some(2)]);
    assert_eq!(ints(1, "match_duration"), vec![None]);
    assert_eq!(ints(1, "step_reached"), vec![Some(1)]);

    let mut taken = Taken::default();
    op.finish_entity_into(op.create_state(&entity), &mut taken).unwrap();
    assert!(taken.batches.is_empty());
}

#[test]
fn an_operator_without_an_aggregate_feeds_its_results() {
    let op = planned(linear_nfa(&["signup", "purchase"]), false, PhysicalPlan::Other);
    let entity = EntityId::String("user1".into());
    let mut state = op.create_state(&entity);
    op.process_sub_batch(&mut state, &make_batch(&[("signup", 1), ("purchase", 5)]));
    let mut taken = Taken::default();
    op.finish_entity_into(state, &mut taken).unwrap();
    assert_eq!(taken.batches.len(), 1);
    assert_eq!(taken.batches[0].num_columns(), 2);
}

#[test]
fn the_scan_below_decides_where_a_match_begins() {
    let range = TimeRange { start: 10, end: 20 };
    let scan = PhysicalPlan::Scan { query_range: Some(range) };
    let plan = PhysicalPlan::Sort { input: Box::new(PhysicalPlan::Distinct { input: Box::new(scan) }) };
    assert_eq!(source_entry_range(&plan), Some(range));
    assert_eq!(source_entry_range(&PhysicalPlan::Other), None);
    let op = planned(linear_nfa(&["signup", "purchase"]), false, plan);
    let entity = EntityId::String("user1".into());
    let found = |events: &[(&str, i64)]| {
        let mut state = op.create_state(&entity);
        op.process_sub_batch(&mut state, &make_batch(events));
        op.finish_entity(state).map_or(0, |b| b.inner.num_rows())
    };
    assert_eq!(found(&[("signup", 5), ("purchase", 15)]), 0);
    assert_eq!(found(&[("signup", 10), ("purchase", 30)]), 1);
}

#[test]
fn strategies_follow_the_class_of_a_pattern() {
    let of = |class: PatternClass| select_strategy(class, false);
    assert_eq!(of(PatternClass::LinearSimple), MatchStrategy::StepCounter);
    assert_eq!(of(PatternClass::LinearImmediate), MatchStrategy::ConsecutiveMatcher);
    assert_eq!(of(PatternClass::GeneralNfa), MatchStrategy::FullNfa);
    assert_eq!(select_strategy(PatternClass::LinearSimple, true), MatchStrategy::FullNfa);
}

#[test]
fn variable_columns_are_required_once() {
    let spec = BracketSpec { durations: vec![1], cumulative: false };
    let mut nfa = brackets_with_binding_nfa(spec, false);
    let again = VariableBindingDef {
        name: "again".into(),
        source_column: "plan".into(),
        column_index: 2,
        bind_step: 0,
    };
    nfa.variable_bindings.push(again);
    nfa.session_window = true;
    nfa.brackets = None;
    let op = planned(nfa, false, PhysicalPlan::Other);
    let names: Vec<&str> = op.required_columns().iter().map(|s| s.as_str()).collect();
    assert_eq!(names, vec!["entity_id", "ts", "event_type", "session_id", "plan"]);
}

#[test]
fn unbound_variables_are_shown_as_empty_texts() {
    let spec = BracketSpec { durations: vec![100], cumulative: false };
    let op = SequenceMatchOperator::from_compiled_nfa(
        brackets_with_binding_nfa(spec, true),
        false,
        brackets_bindings_output_schema(true),
    );
    let mut state = op.create_state(&EntityId::String("u1".into()));
    match &mut state {
        SequenceMatchState::NfaWithBindings(tracks) => {
            let mut track = plan_track(&op, "free", &[("signup", 3, "free")]);
            track.bound_values = vec![None];
            tracks.tracks.push(track);
        }
        other => panic!("{other:?}"),
    }
    let result = op.finish_entity(state).unwrap().inner;
    assert_eq!(result.num_rows(), 1);
    let plans = result.column_by_name("$plan").unwrap();
    let plans = plans.as_any().downcast_ref::<StringViewArray>().unwrap();
    assert_eq!(plans.value(0), "");
}

#[test]
fn a_match_past_the_last_bracket_gives_no_batch() {
    let day = 86_400_000_000_000;
    let bracketed = |emit_all: bool| {
        let mut nfa = linear_nfa(&["signup", "purchase"]);
        nfa.brackets = Some(BracketSpec { durations: vec![day, 7 * day], cumulative: false });
        nfa.emit_all = emit_all;
        let schema = OperatorSchema::new(vec![
            ColumnDef::required("entity_id", BqlType::String),
            ColumnDef::required("step_reached", BqlType::Int),
            ColumnDef::required("bracket", BqlType::Int),
            ColumnDef::required("bracket_end", BqlType::Int),
        ])
        .unwrap();
        SequenceMatchOperator::from_compiled_nfa(nfa, false, schema)
    };
    let finish = |op: &SequenceMatchOperator, until: i64| {
        let mut state = op.create_state(&EntityId::String("u1".into()));
        op.process_sub_batch(&mut state, &make_batch(&[("signup", 0), ("purchase", until)]));
        op.finish_entity(state)
    };
    let op = bracketed(false);
    assert!(finish(&op, 100 * day).is_none());
    assert_eq!(finish(&op, 2 * day).unwrap().inner.num_rows(), 1);
    assert!(finish(&bracketed(true), 100 * day).unwrap().inner.num_rows() > 0);
}

struct Counted(usize);

impl Accumulator for Counted {
    fn update_batch(&mut self, batch: &Batch) -> Result<(), BqliteError> {
        assert!(batch.inner.num_rows() > 0);
        self.0 += 1;
        Ok(())
    }
}

#[test]
fn a_match_past_the_last_bracket_feeds_nothing() {
    let mut nfa = linear_nfa(&["signup", "purchase"]);
    nfa.brackets = Some(BracketSpec { durations: vec![10], cumulative: false });
    let schema = OperatorSchema::new(vec![
        ColumnDef::required("entity_id", BqlType::String),
        ColumnDef::required("bracket", BqlType::Int),
    ])
    .unwrap();
    let op = SequenceMatchOperator::from_compiled_nfa(nfa, false, schema);
    let mut fed = Counted(0);
    for until in [5, 50] {
        let mut state = op.create_state(&EntityId::String("u1".into()));
        op.process_sub_batch(&mut state, &make_batch(&[("signup", 0), ("purchase", until)]));
        op.finish_entity_into(state, &mut fed).unwrap();
    }
    assert_eq!(fed.0, 1);
}
