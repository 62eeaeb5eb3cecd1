//! The step counter on small histories.

use std::sync::Arc;
use std::time::Instant;

use arrow::array::{Int64Array, StringViewArray};
use arrow::datatypes::{DataType, Field, Schema};
use arrow::record_batch::RecordBatch;

use bqlite_operators::columnar::Batch;
use bqlite_operators::matcher::bindings::{BindingValue, BindingValueCache};
use bqlite_operators::matcher::nfa::{EntityNfaState, NfaSimulator, PredicateCache};
use bqlite_operators::matcher::pattern::{
    CompiledNfa, NfaState, PatternClass, PoisonTransition, TimeRange, Transition,
    VariableBindingDef,
};
use bqlite_operators::matcher::step_counter::{StepCounterSimulator, StepCounterState};

fn make_batch(events: &[(&str, i64)]) -> Batch {
    let types: Vec<&str> = events.iter().map(|(e, _)| *e).collect();
    let timestamps: Vec<i64> = events.iter().map(|(_, t)| *t).collect();
    let schema = Arc::new(Schema::new(vec![
        Field::new("event_type", DataType::Utf8View, false),
        Field::new("ts", DataType::Int64, false),
    ]));
    let inner = RecordBatch::try_new(
        schema,
        vec![
            Arc::new(StringViewArray::from(types)),
            Arc::new(Int64Array::from(timestamps)),
        ],
    )
    .unwrap();
    Batch { inner }
}

/// Processes a batch with a pattern that has no predicates and no variables.
fn run(sim: &StepCounterSimulator, state: &mut StepCounterState, batch: &Batch) {
    let cache = PredicateCache { results: vec![] };
    let bindings = BindingValueCache { values: vec![] };
    sim.process_batch(state, batch, "event_type", "ts", &cache, &bindings);
}

fn run_nfa(sim: &NfaSimulator, state: &mut EntityNfaState, batch: &Batch) {
    let cache = PredicateCache { results: vec![] };
    sim.process_batch(state, batch, "event_type", "ts", &cache);
}

fn simple_transition(event_type: &str, target: u16) -> Transition {
    Transition {
        event_type: event_type.to_string(),
        predicates: vec![],
        bind_variables: vec![],
        check_variables: vec![],
        target,
    }
}

fn linear(steps: &[&str]) -> CompiledNfa {
    let mut states: Vec<NfaState> = steps
        .iter()
        .enumerate()
        .map(|(i, e)| NfaState {
            transitions: vec![simple_transition(e, i as u16 + 1)],
            poison_transitions: vec![],
        })
        .collect();
    states.push(NfaState { transitions: vec![], poison_transitions: vec![] });
    CompiledNfa {
        states,
        accept_state: steps.len() as u16,
        relevant_event_types: steps.iter().map(|e| e.to_string()).collect(),
        pattern_class: PatternClass::LinearSimple,
        variable_bindings: vec![],
        global_window: None,
        session_window: false,
        emit_all: false,
        brackets: None,
        state_to_step: (0..=steps.len() as u8).collect(),
    }
}

fn build_3step_nfa() -> CompiledNfa {
    linear(&["A", "B", "C"])
}

fn build_3step_windowed_nfa(window_ns: i64) -> CompiledNfa {
    let mut nfa = build_3step_nfa();
    nfa.global_window = Some(window_ns);
    nfa
}

/// A, then B with no D in between, then C.
fn build_3step_negation_nfa() -> CompiledNfa {
    let mut nfa = build_3step_nfa();
    nfa.states[1].poison_transitions =
        vec![PoisonTransition { event_type: "D".to_string(), predicates: vec![] }];
    nfa.relevant_event_types.push("D".to_string());
    nfa.pattern_class = PatternClass::LinearWithNegation;
    nfa
}

#[test]
fn match_first_basic() {
    let nfa = build_3step_nfa();
    let sim = StepCounterSimulator::new(nfa, false);
    let mut state = sim.create_state();

    let batch = make_batch(&[("A", 1), ("X", 2), ("B", 3), ("C", 5)]);
    run(&sim, &mut state, &batch);

    assert_eq!(state.completions.len(), 1);
    assert_eq!(state.completions[0].anchor_ts, 1);
    assert_eq!(state.completions[0].final_ts, 5);
    assert_eq!(state.partials.len(), 0);
}

#[test]
fn match_first_no_match() {
    let nfa = build_3step_nfa();
    let sim = StepCounterSimulator::new(nfa, false);
    let mut state = sim.create_state();

    let batch = make_batch(&[("A", 1), ("B", 2)]);
    run(&sim, &mut state, &batch);

    assert_eq!(state.completions.len(), 0);
}

#[test]
fn match_first_events_out_of_step_order_produce_no_spurious_match() {
    let nfa = build_3step_nfa();
    let sim = StepCounterSimulator::new(nfa, false);
    let mut state = sim.create_state();

    let batch = make_batch(&[("B", 1), ("A", 2), ("C", 3)]);
    run(&sim, &mut state, &batch);

    assert_eq!(state.completions.len(), 0);
}

#[test]
fn match_first_strict_ordering() {
    let nfa = build_3step_nfa();
    let sim = StepCounterSimulator::new(nfa, false);
    let mut state = sim.create_state();

    let batch = make_batch(&[("A", 5), ("B", 5), ("C", 10)]);
    run(&sim, &mut state, &batch);

    assert_eq!(state.completions.len(), 0);
}

#[test]
fn match_first_spans_multiple_batches() {
    let nfa = build_3step_nfa();
    let sim = StepCounterSimulator::new(nfa, false);
    let mut state = sim.create_state();

    let batch1 = make_batch(&[("A", 1), ("B", 2)]);
    let batch2 = make_batch(&[("C", 3)]);
    run(&sim, &mut state, &batch1);
    run(&sim, &mut state, &batch2);

    assert_eq!(state.completions.len(), 1);
    assert_eq!(state.completions[0].anchor_ts, 1);
    assert_eq!(state.completions[0].final_ts, 3);
}

#[test]
fn match_all_basic() {
    let nfa = build_3step_nfa();
    let sim = StepCounterSimulator::new(nfa, true);
    let mut state = sim.create_state();

    let batch = make_batch(&[("A", 1), ("B", 2), ("C", 3), ("A", 4), ("B", 5), ("C", 6)]);
    run(&sim, &mut state, &batch);

    assert_eq!(state.completions.len(), 2);
    assert_eq!(state.completions[0].anchor_ts, 1);
    assert_eq!(state.completions[1].anchor_ts, 4);
}

#[test]
fn match_all_no_overlap() {
    let nfa = build_3step_nfa();
    let sim = StepCounterSimulator::new(nfa, true);
    let mut state = sim.create_state();

    let batch = make_batch(&[("A", 1), ("A", 2), ("B", 4), ("C", 5)]);
    run(&sim, &mut state, &batch);

    assert_eq!(state.completions.len(), 1);
}

#[test]
fn window_expiry_no_match() {
    let nfa = build_3step_windowed_nfa(5);
    let sim = StepCounterSimulator::new(nfa, false);
    let mut state = sim.create_state();

    let batch = make_batch(&[("A", 1), ("B", 3), ("C", 10)]);
    run(&sim, &mut state, &batch);

    assert_eq!(state.completions.len(), 0);
}

#[test]
fn window_rebinding_deferred_consumption() {
    let nfa = build_3step_windowed_nfa(7);
    let sim = StepCounterSimulator::new(nfa, false);
    let mut state = sim.create_state();

    let batch = make_batch(&[("A", 1), ("A", 5), ("B", 6), ("C", 10)]);
    run(&sim, &mut state, &batch);

    assert_eq!(
        state.completions.len(),
        1,
        "should find match via rebinding to anchor=5"
    );
    assert_eq!(state.completions[0].anchor_ts, 5);
    assert_eq!(state.completions[0].final_ts, 10);
}

#[test]
fn window_within_limit_matches() {
    let nfa = build_3step_windowed_nfa(10);
    let sim = StepCounterSimulator::new(nfa, false);
    let mut state = sim.create_state();

    let batch = make_batch(&[("A", 1), ("B", 5), ("C", 10)]);
    run(&sim, &mut state, &batch);

    assert_eq!(state.completions.len(), 1);
}

#[test]
fn negation_kills_track() {
    let nfa = build_3step_negation_nfa();
    let sim = StepCounterSimulator::new(nfa, false);
    let mut state = sim.create_state();

    let batch = make_batch(&[("A", 1), ("D", 2), ("B", 3), ("C", 4)]);
    run(&sim, &mut state, &batch);

    assert_eq!(state.completions.len(), 0);
}

#[test]
fn negation_after_step_does_not_affect() {
    let nfa = build_3step_negation_nfa();
    let sim = StepCounterSimulator::new(nfa, false);
    let mut state = sim.create_state();

    let batch = make_batch(&[("A", 1), ("B", 2), ("D", 3), ("C", 4)]);
    run(&sim, &mut state, &batch);

    assert_eq!(state.completions.len(), 1);
}

#[test]
fn emit_all_partial_at_entity_end() {
    let mut nfa = build_3step_nfa();
    nfa.emit_all = true;
    let sim = StepCounterSimulator::new(nfa, false);
    let mut state = sim.create_state();

    let batch = make_batch(&[("A", 1), ("B", 2)]);
    run(&sim, &mut state, &batch);
    sim.finish_entity(&mut state);

    assert_eq!(state.completions.len(), 0);
    assert_eq!(state.partials.len(), 1);
    assert_eq!(state.partials[0].anchor_ts, 1);
    assert_eq!(state.partials[0].step_reached, 2);
}

#[test]
fn emit_all_window_expiry_records_partial() {
    let mut nfa = build_3step_windowed_nfa(5);
    nfa.emit_all = true;
    let sim = StepCounterSimulator::new(nfa, false);
    let mut state = sim.create_state();

    let batch = make_batch(&[("A", 1), ("B", 3), ("C", 10)]);
    run(&sim, &mut state, &batch);

    assert_eq!(state.completions.len(), 0);
    assert_eq!(state.partials.len(), 1);
    assert_eq!(state.partials[0].step_reached, 2);
}

#[test]
fn single_step_pattern() {
    let states = vec![
        NfaState {
            transitions: vec![simple_transition("A", 1)],
            poison_transitions: vec![],
        },
        NfaState {
            transitions: vec![],
            poison_transitions: vec![],
        },
    ];
    let nfa = CompiledNfa {
        states,
        accept_state: 1,
        relevant_event_types: vec!["A".into()],
        pattern_class: PatternClass::LinearSimple,
        variable_bindings: vec![],
        global_window: None,
        session_window: false,
        emit_all: false,
        brackets: None,
        state_to_step: vec![0, 1],
    };
    let sim = StepCounterSimulator::new(nfa, false);
    let mut state = sim.create_state();

    let batch = make_batch(&[("X", 1), ("A", 2), ("A", 3)]);
    run(&sim, &mut state, &batch);

    assert_eq!(state.completions.len(), 1);
    assert_eq!(state.completions[0].anchor_ts, 2);
}

#[test]
fn empty_batch_no_crash() {
    let nfa = build_3step_nfa();
    let sim = StepCounterSimulator::new(nfa, false);
    let mut state = sim.create_state();

    let batch = make_batch(&[]);
    run(&sim, &mut state, &batch);
    assert_eq!(state.completions.len(), 0);
}

#[test]
fn single_event_entity_no_match() {
    let nfa = build_3step_nfa();
    let sim = StepCounterSimulator::new(nfa, false);
    let mut state = sim.create_state();

    let batch = make_batch(&[("A", 1)]);
    run(&sim, &mut state, &batch);
    assert_eq!(state.completions.len(), 0);
}

#[test]
fn perf_smoke_step_counter_faster_than_nfa() {
    const ENTITIES: usize = 1_000;
    const EVENTS_PER_ENTITY: usize = 500;
    const WARMUP: usize = 3;
    const RUNS: usize = 10;

    let mut events: Vec<(&str, i64)> = Vec::with_capacity(EVENTS_PER_ENTITY);
    for i in 0..EVENTS_PER_ENTITY {
        let ts = i as i64;
        let event = match i % 10 {
            0 => "A",
            3 => "B",
            7 => "C",
            _ => "X",
        };
        events.push((event, ts));
    }
    let batch = make_batch(&events);

    let step_sim = StepCounterSimulator::new(build_3step_nfa(), false);
    let nfa_sim = NfaSimulator::new(build_3step_nfa(), false);

    for _ in 0..WARMUP {
        for _ in 0..ENTITIES {
            let mut s = step_sim.create_state();
            run(&step_sim, &mut s, &batch);
        }
        for _ in 0..ENTITIES {
            let mut s = nfa_sim.create_state();
            run_nfa(&nfa_sim, &mut s, &batch);
        }
    }

    let t0 = Instant::now();
    for _ in 0..RUNS {
        for _ in 0..ENTITIES {
            let mut s = step_sim.create_state();
            run(&step_sim, &mut s, &batch);
        }
    }
    let step_ns = t0.elapsed().as_nanos() as f64 / (RUNS * ENTITIES * EVENTS_PER_ENTITY) as f64;

    let t1 = Instant::now();
    for _ in 0..RUNS {
        for _ in 0..ENTITIES {
            let mut s = nfa_sim.create_state();
            run_nfa(&nfa_sim, &mut s, &batch);
        }
    }
    let nfa_ns = t1.elapsed().as_nanos() as f64 / (RUNS * ENTITIES * EVENTS_PER_ENTITY) as f64;

    assert!(
        step_ns <= nfa_ns * 3.0,
        "step counter ({step_ns:.2} ns/event) is >3× slower than NFA ({nfa_ns:.2} ns/event) on a linear pattern — likely a regression"
    );

    let mut sc_state = step_sim.create_state();
    run(&step_sim, &mut sc_state, &batch);
    let mut nfa_state = nfa_sim.create_state();
    run_nfa(&nfa_sim, &mut nfa_state, &batch);
    assert_eq!(
        sc_state.completions.len(),
        nfa_state.completions().len(),
        "step counter and NFA must agree on match count"
    );
}

#[test]
fn window_rebinding_at_step_greater_than_one() {
    let nfa = build_3step_windowed_nfa(7);
    let sim = StepCounterSimulator::new(nfa, false);
    let mut state = sim.create_state();

    let batch = make_batch(&[("A", 1), ("A", 5), ("B", 6), ("B", 8), ("C", 12)]);
    run(&sim, &mut state, &batch);

    assert_eq!(
        state.completions.len(),
        1,
        "should find match via rebinding to anchor=5 from step-2 track"
    );
    assert_eq!(state.completions[0].anchor_ts, 5);
    assert_eq!(state.completions[0].final_ts, 12);
}

#[test]
fn active_state_cap_prevents_unbounded_track_growth() {
    let states = vec![
        NfaState {
            transitions: vec![Transition {
                event_type: "A".to_string(),
                predicates: vec![],
                bind_variables: vec![0],
                check_variables: vec![],
                target: 1,
            }],
            poison_transitions: vec![],
        },
        NfaState {
            transitions: vec![Transition {
                event_type: "B".to_string(),
                predicates: vec![],
                bind_variables: vec![],
                check_variables: vec![0],
                target: 2,
            }],
            poison_transitions: vec![],
        },
        NfaState {
            transitions: vec![],
            poison_transitions: vec![],
        },
    ];

    let nfa = CompiledNfa {
        states,
        accept_state: 2,
        relevant_event_types: vec!["A".into(), "B".into()],
        pattern_class: PatternClass::LinearWithBindings,
        variable_bindings: vec![VariableBindingDef {
            name: "k".to_string(),
            source_column: "k".to_string(),
            column_index: 0,
            bind_step: 0,
        }],
        global_window: None,
        session_window: false,
        emit_all: false,
        brackets: None,
        state_to_step: vec![0, 1, 2],
    };

    let schema = Arc::new(Schema::new(vec![
        Field::new("k", DataType::Utf8View, false),
        Field::new("event_type", DataType::Utf8View, false),
        Field::new("ts", DataType::Int64, false),
    ]));
    let inner = RecordBatch::try_new(
        schema,
        vec![
            Arc::new(StringViewArray::from(vec!["v1", "v2", "v3", "v4"])),
            Arc::new(StringViewArray::from(vec!["A", "A", "A", "A"])),
            Arc::new(Int64Array::from(vec![1i64, 2, 3, 4])),
        ],
    )
    .unwrap();

    let batch = Batch { inner };
    let bound = |v: &str| Some(BindingValue::String(v.to_string()));
    let bindings = BindingValueCache {
        values: vec![vec![bound("v1"), bound("v2"), bound("v3"), bound("v4")]],
    };

    let sim = StepCounterSimulator::new(nfa, false).with_active_state_limit(3);
    let mut state = sim.create_state();

    let cache = PredicateCache { results: vec![] };
    sim.process_batch(&mut state, &batch, "event_type", "ts", &cache, &bindings);

    assert_eq!(state.tracks.len(), 3, "only 3 tracks should be created");
    assert_eq!(state.dropped_count, 1, "one track dropped due to cap");
    assert!(state.cap_exceeded, "cap_exceeded flag must be set");
}

fn found(state: &StepCounterState) -> Vec<(i64, i64)> {
    state.completions().iter().map(|c| (c.anchor_ts, c.final_ts)).collect()
}

#[test]
fn step_counter_and_automaton_find_the_same_matches() {
    let events: Vec<(&str, i64)> = (0..200i64)
        .map(|i| (["A", "B", "C", "A", "X", "A", "X"][(i * i % 7) as usize], i * 3))
        .collect();
    for match_all in [false, true] {
        let steps = StepCounterSimulator::new(build_3step_nfa(), match_all);
        let nfa = NfaSimulator::new(build_3step_nfa(), match_all);
        let mut a = steps.create_state();
        let mut b = nfa.create_state();
        for part in events.chunks(17) {
            run(&steps, &mut a, &make_batch(part));
            run_nfa(&nfa, &mut b, &make_batch(part));
        }
        let other: Vec<(i64, i64)> =
            b.completions().iter().map(|c| (c.anchor_ts, c.final_ts)).collect();
        assert!(!other.is_empty());
        assert_eq!(found(&a), other);
    }
}

#[test]
fn step_counter_matches_do_not_overlap() {
    let sim = StepCounterSimulator::new(linear(&["A", "B"]), true);
    let mut state = sim.create_state();
    run(
        &sim,
        &mut state,
        &make_batch(&[("A", 1), ("A", 2), ("B", 3), ("A", 3), ("B", 4), ("A", 5), ("B", 6)]),
    );
    assert_eq!(found(&state), vec![(1, 3), (5, 6)]);
}

#[test]
fn step_counter_matches_begin_inside_the_entry_range() {
    let range = TimeRange { start: 2, end: 5 };
    let sim = StepCounterSimulator::new(linear(&["A", "B"]), true).with_entry_range(Some(range));
    let mut state = sim.create_state();
    run(
        &sim,
        &mut state,
        &make_batch(&[("A", 1), ("B", 2), ("A", 4), ("B", 9), ("A", 10), ("B", 11)]),
    );
    assert_eq!(found(&state), vec![(4, 9)]);
    assert_eq!(sim.active_state_limit(), 10_000);
    assert!(sim.is_match_all());
    assert_eq!(sim.nfa().accept_state, 2);
}

#[test]
fn tracks_are_kept_apart_by_their_bound_values() {
    let mut nfa = linear(&["A", "B"]);
    nfa.states[0].transitions[0].bind_variables = vec![0];
    nfa.states[1].transitions[0].check_variables = vec![0];
    nfa.variable_bindings = vec![VariableBindingDef {
        name: "k".to_string(),
        source_column: "k".to_string(),
        column_index: 0,
        bind_step: 0,
    }];
    nfa.pattern_class = PatternClass::LinearWithBindings;
    let sim = StepCounterSimulator::new(nfa, true);
    let mut state = sim.create_state();
    let value = |v: i64| Some(BindingValue::Int(v));
    let bindings = BindingValueCache {
        values: vec![vec![value(1), value(2), None, value(2), value(3), value(1)]],
    };
    let cache = PredicateCache { results: vec![] };
    let batch =
        make_batch(&[("A", 1), ("A", 2), ("A", 3), ("B", 4), ("B", 5), ("B", 6)]);
    sim.process_batch(&mut state, &batch, "event_type", "ts", &cache, &bindings);
    assert_eq!(found(&state), vec![(2, 4), (1, 6)]);
    assert_eq!(state.tracks.len(), 2);
    assert_eq!(state.dropped_count(), 0);
    assert!(state.partials().is_empty());
    let keys: Vec<String> =
        state.tracks.as_slice().iter().map(|t| format!("{:?}", t.bindings.values())).collect();
    assert_eq!(keys, vec!["[Int(1)]".to_string(), "[Int(2)]".to_string()]);
}

/// A, then B with the same value.
fn build_keyed_nfa(window_ns: i64) -> CompiledNfa {
    let mut nfa = linear(&["A", "B"]);
    nfa.states[0].transitions[0].bind_variables = vec![0];
    nfa.states[1].transitions[0].check_variables = vec![0];
    nfa.variable_bindings = vec![VariableBindingDef {
        name: "k".to_string(),
        source_column: "k".to_string(),
        column_index: 0,
        bind_step: 0,
    }];
    nfa.pattern_class = PatternClass::LinearWithBindings;
    nfa.global_window = Some(window_ns);
    nfa
}

#[test]
fn the_state_keeps_its_books() {
    for match_all in [false, true] {
        let sim =
            StepCounterSimulator::new(build_keyed_nfa(40), match_all).with_active_state_limit(3);
        let mut state = sim.create_state();
        let cache = PredicateCache { results: vec![] };
        for i in 0..120i64 {
            let event = ["A", "B", "A", "A", "B"][(i * i % 5) as usize];
            let value = Some(BindingValue::Int(i * 7 % 5));
            let bindings = BindingValueCache { values: vec![vec![value]] };
            let batch = make_batch(&[(event, i * 4)]);
            sim.process_batch(&mut state, &batch, "event_type", "ts", &cache, &bindings);
            let tracks = state.tracks.as_slice();
            let active = tracks.iter().filter(|t| t.current_step > 0 && !t.done).count();
            assert_eq!(state.active_candidate_count as usize, active);
            assert!(tracks.len() <= 3 && state.step0_candidates.len() <= 3);
            assert_eq!(state.cap_exceeded, state.dropped_count > 0);
            let mut keys: Vec<String> =
                tracks.iter().map(|t| format!("{:?}", t.bindings.values())).collect();
            keys.sort();
            keys.dedup();
            assert_eq!(keys.len(), tracks.len());
        }
    }
}
