//! The automaton simulator on small histories.

use std::sync::Arc;

use arrow::array::{
    Float64Array, Int64Array, StringArray, StringViewArray, TimestampNanosecondArray,
};
use arrow::datatypes::{DataType, Field, Schema, TimeUnit};
use arrow::record_batch::RecordBatch;

use bqlite_operators::columnar::Batch;
use bqlite_operators::expr::{CompareOp, CompiledExpr, CompiledNode};
use bqlite_operators::matcher::nfa::{
    CandidateEntry, EntityNfaState, NfaSimulator, PredicateCache, StateCandidates,
};
use bqlite_operators::matcher::pattern::{
    CompiledNfa, NfaState, PatternClass, PoisonTransition, TimeRange, Transition,
};
use bqlite_operators::value::PropertyValue;

/// A batch of event types and integer timestamps.
fn make_batch(events: &[(&str, i64)]) -> Batch {
    let event_types: Vec<&str> = events.iter().map(|(e, _)| *e).collect();
    let timestamps: Vec<i64> = events.iter().map(|(_, t)| *t).collect();
    let schema = Arc::new(Schema::new(vec![
        Field::new("event_type", DataType::Utf8View, false),
        Field::new("ts", DataType::Int64, false),
    ]));
    let inner = RecordBatch::try_new(
        schema,
        vec![
            Arc::new(StringViewArray::from(event_types)),
            Arc::new(Int64Array::from(timestamps)),
        ],
    )
    .unwrap();
    Batch { inner }
}

/// The same with an amount for each event.
fn make_batch_with_amount(events: &[(&str, i64, f64)]) -> Batch {
    let event_types: Vec<&str> = events.iter().map(|(e, _, _)| *e).collect();
    let timestamps: Vec<i64> = events.iter().map(|(_, t, _)| *t).collect();
    let amounts: Vec<f64> = events.iter().map(|(_, _, a)| *a).collect();
    let schema = Arc::new(Schema::new(vec![
        Field::new("event_type", DataType::Utf8View, false),
        Field::new("ts", DataType::Int64, false),
        Field::new("amount", DataType::Float64, false),
    ]));
    let inner = RecordBatch::try_new(
        schema,
        vec![
            Arc::new(StringViewArray::from(event_types)),
            Arc::new(Int64Array::from(timestamps)),
            Arc::new(Float64Array::from(amounts)),
        ],
    )
    .unwrap();
    Batch { inner }
}

/// Processes a batch with a pattern that has no predicates.
fn run(sim: &NfaSimulator, state: &mut EntityNfaState, batch: &Batch) {
    let cache = PredicateCache { results: vec![] };
    sim.process_batch(state, batch, "event_type", "ts", &cache);
}

fn simple_transition(event_type: &str, target: u16) -> Transition {
    Transition {
        event_type: event_type.to_string(),
        predicates: Vec::new(),
        bind_variables: Vec::new(),
        check_variables: Vec::new(),
        target,
    }
}

fn simple_poison(event_type: &str) -> PoisonTransition {
    PoisonTransition { event_type: event_type.to_string(), predicates: Vec::new() }
}

fn plain_state(transitions: Vec<Transition>) -> NfaState {
    NfaState { transitions, poison_transitions: vec![] }
}

fn linear(steps: &[&str]) -> CompiledNfa {
    let mut states: Vec<NfaState> = steps
        .iter()
        .enumerate()
        .map(|(i, e)| plain_state(vec![simple_transition(e, i as u16 + 1)]))
        .collect();
    states.push(plain_state(vec![]));
    CompiledNfa {
        states,
        accept_state: steps.len() as u16,
        relevant_event_types: steps.iter().map(|e| e.to_string()).collect(),
        pattern_class: PatternClass::LinearSimple,
        variable_bindings: vec![],
        global_window: None,
        session_window: false,
        emit_all: false,
        brackets: None,
        state_to_step: (0..=steps.len() as u8).collect(),
    }
}

fn nfa_a_then_b() -> CompiledNfa {
    linear(&["A", "B"])
}

fn nfa_a_then_b_then_c() -> CompiledNfa {
    linear(&["A", "B", "C"])
}

#[test]
fn test_simple_two_step_match() {
    let nfa = nfa_a_then_b();
    let sim = NfaSimulator::new(nfa, false);
    let mut state = sim.create_state();

    let batch = make_batch(&[("A", 1), ("B", 2)]);
    run(&sim, &mut state, &batch);

    assert_eq!(state.completions.len(), 1);
    assert_eq!(state.completions[0].anchor_ts, 1);
    assert_eq!(state.completions[0].final_ts, 2);
}

#[test]
fn test_no_match_wrong_order() {
    let nfa = nfa_a_then_b();
    let sim = NfaSimulator::new(nfa, false);
    let mut state = sim.create_state();

    let batch = make_batch(&[("B", 1), ("A", 2)]);
    run(&sim, &mut state, &batch);

    assert!(state.completions.is_empty());
}

#[test]
fn test_no_match_same_timestamp() {
    let nfa = nfa_a_then_b();
    let sim = NfaSimulator::new(nfa, false);
    let mut state = sim.create_state();

    let batch = make_batch(&[("A", 5), ("B", 5)]);
    run(&sim, &mut state, &batch);

    assert!(state.completions.is_empty());
}

#[test]
fn test_non_consecutive_match() {
    let nfa = nfa_a_then_b();
    let sim = NfaSimulator::new(nfa, false);
    let mut state = sim.create_state();

    let batch = make_batch(&[("A", 1), ("X", 2), ("Y", 3), ("B", 4)]);
    run(&sim, &mut state, &batch);

    assert_eq!(state.completions.len(), 1);
    assert_eq!(state.completions[0].anchor_ts, 1);
    assert_eq!(state.completions[0].final_ts, 4);
}

#[test]
fn test_three_step_match() {
    let nfa = nfa_a_then_b_then_c();
    let sim = NfaSimulator::new(nfa, false);
    let mut state = sim.create_state();

    let batch = make_batch(&[("A", 1), ("B", 5), ("C", 10)]);
    run(&sim, &mut state, &batch);

    assert_eq!(state.completions.len(), 1);
    assert_eq!(state.completions[0].anchor_ts, 1);
    assert_eq!(state.completions[0].final_ts, 10);
}

#[test]
fn test_match_first_stops_after_one() {
    let nfa = nfa_a_then_b();
    let sim = NfaSimulator::new(nfa, false);
    let mut state = sim.create_state();

    let batch = make_batch(&[("A", 1), ("B", 2), ("A", 3), ("B", 4)]);
    run(&sim, &mut state, &batch);

    assert_eq!(state.completions.len(), 1);
    assert_eq!(state.completions[0].anchor_ts, 1);
}

#[test]
fn test_match_all_finds_multiple() {
    let nfa = nfa_a_then_b();
    let sim = NfaSimulator::new(nfa, true);
    let mut state = sim.create_state();

    let batch = make_batch(&[("A", 1), ("B", 2), ("A", 3), ("B", 4)]);
    run(&sim, &mut state, &batch);

    assert_eq!(state.completions.len(), 2);
    assert_eq!(state.completions[0].anchor_ts, 1);
    assert_eq!(state.completions[0].final_ts, 2);
    assert_eq!(state.completions[1].anchor_ts, 3);
    assert_eq!(state.completions[1].final_ts, 4);
}

#[test]
fn test_match_all_non_overlapping() {
    let nfa = nfa_a_then_b();
    let sim = NfaSimulator::new(nfa, true);
    let mut state = sim.create_state();

    let batch = make_batch(&[("A", 1), ("A", 2), ("B", 3)]);
    run(&sim, &mut state, &batch);

    assert_eq!(state.completions.len(), 1);
    assert_eq!(state.completions[0].anchor_ts, 1);
}

#[test]
fn test_window_allows_within() {
    let mut nfa = nfa_a_then_b();
    nfa.global_window = Some(10);
    let sim = NfaSimulator::new(nfa, false);
    let mut state = sim.create_state();

    let batch = make_batch(&[("A", 100), ("B", 105)]);
    run(&sim, &mut state, &batch);

    assert_eq!(state.completions.len(), 1);
}

#[test]
fn test_window_rejects_expired() {
    let mut nfa = nfa_a_then_b();
    nfa.global_window = Some(10);
    let sim = NfaSimulator::new(nfa, false);
    let mut state = sim.create_state();

    let batch = make_batch(&[("A", 100), ("B", 111)]);
    run(&sim, &mut state, &batch);

    assert!(state.completions.is_empty());
}

#[test]
fn test_window_boundary_exact() {
    let mut nfa = nfa_a_then_b();
    nfa.global_window = Some(10);
    let sim = NfaSimulator::new(nfa, false);
    let mut state = sim.create_state();

    let batch = make_batch(&[("A", 100), ("B", 110)]);
    run(&sim, &mut state, &batch);

    assert_eq!(state.completions.len(), 1);
}

#[test]
fn test_window_rebinding() {
    let mut nfa = nfa_a_then_b_then_c();
    nfa.global_window = Some(7);
    let sim = NfaSimulator::new(nfa, false);
    let mut state = sim.create_state();

    let batch = make_batch(&[("A", 1), ("A", 5), ("B", 6), ("C", 10)]);
    run(&sim, &mut state, &batch);

    assert_eq!(state.completions.len(), 1);
    assert_eq!(state.completions[0].anchor_ts, 5);
    assert_eq!(state.completions[0].final_ts, 10);
}

#[test]
fn test_poison_kills_candidates() {
    let nfa = CompiledNfa {
        states: vec![
            NfaState {
                transitions: vec![simple_transition("A", 1)],
                poison_transitions: vec![],
            },
            NfaState {
                transitions: vec![simple_transition("B", 2)],
                poison_transitions: vec![simple_poison("C")],
            },
            NfaState {
                transitions: vec![],
                poison_transitions: vec![],
            },
        ],
        accept_state: 2,
        relevant_event_types: vec![
            "A".to_string(),
            "B".to_string(),
            "C".to_string(),
        ],
        pattern_class: PatternClass::LinearWithNegation,
        variable_bindings: vec![],
        global_window: None,
        session_window: false,
        emit_all: false,
        brackets: None,
        state_to_step: vec![0, 1, 2],
    };

    let sim = NfaSimulator::new(nfa, false);
    let mut state = sim.create_state();

    let batch = make_batch(&[("A", 1), ("C", 2), ("B", 3)]);
    run(&sim, &mut state, &batch);

    assert!(state.completions.is_empty());
}

#[test]
fn test_poison_does_not_kill_wrong_event() {
    let nfa = CompiledNfa {
        states: vec![
            NfaState {
                transitions: vec![simple_transition("A", 1)],
                poison_transitions: vec![],
            },
            NfaState {
                transitions: vec![simple_transition("B", 2)],
                poison_transitions: vec![simple_poison("C")],
            },
            NfaState {
                transitions: vec![],
                poison_transitions: vec![],
            },
        ],
        accept_state: 2,
        relevant_event_types: vec![
            "A".to_string(),
            "B".to_string(),
            "C".to_string(),
            "D".to_string(),
        ],
        pattern_class: PatternClass::LinearWithNegation,
        variable_bindings: vec![],
        global_window: None,
        session_window: false,
        emit_all: false,
        brackets: None,
        state_to_step: vec![0, 1, 2],
    };

    let sim = NfaSimulator::new(nfa, false);
    let mut state = sim.create_state();

    let batch = make_batch(&[("A", 1), ("D", 2), ("B", 3)]);
    run(&sim, &mut state, &batch);

    assert_eq!(state.completions.len(), 1);
}

#[test]
fn test_poison_multi_state_scope() {
    let nfa = CompiledNfa {
        states: vec![
            NfaState {
                transitions: vec![simple_transition("A", 1)],
                poison_transitions: vec![],
            },
            NfaState {
                transitions: vec![simple_transition("B", 2)],
                poison_transitions: vec![simple_poison("D")],
            },
            NfaState {
                transitions: vec![simple_transition("C", 3)],
                poison_transitions: vec![simple_poison("D")],
            },
            NfaState {
                transitions: vec![],
                poison_transitions: vec![],
            },
        ],
        accept_state: 3,
        relevant_event_types: vec![
            "A".to_string(),
            "B".to_string(),
            "C".to_string(),
            "D".to_string(),
        ],
        pattern_class: PatternClass::LinearWithNegation,
        variable_bindings: vec![],
        global_window: None,
        session_window: false,
        emit_all: false,
        brackets: None,
        state_to_step: vec![0, 1, 2, 3],
    };

    let sim = NfaSimulator::new(nfa, false);

    let mut state = sim.create_state();
    let batch = make_batch(&[("A", 1), ("D", 2), ("B", 3), ("C", 4)]);
    run(&sim, &mut state, &batch);
    assert!(state.completions.is_empty());

    let mut state = sim.create_state();
    let batch = make_batch(&[("A", 1), ("B", 2), ("D", 3), ("C", 4)]);
    run(&sim, &mut state, &batch);
    assert!(state.completions.is_empty());

    let mut state = sim.create_state();
    let batch = make_batch(&[("A", 1), ("B", 2), ("C", 3)]);
    run(&sim, &mut state, &batch);
    assert_eq!(state.completions.len(), 1);
}

#[test]
fn test_repetition_one_or_more() {
    let nfa = || CompiledNfa {
        states: vec![
            NfaState {
                transitions: vec![simple_transition("A", 1)],
                poison_transitions: vec![],
            },
            NfaState {
                transitions: vec![simple_transition("B", 2)],
                poison_transitions: vec![],
            },
            NfaState {
                transitions: vec![
                    simple_transition("B", 2),
                    simple_transition("C", 3),
                ],
                poison_transitions: vec![],
            },
            NfaState {
                transitions: vec![],
                poison_transitions: vec![],
            },
        ],
        accept_state: 3,
        relevant_event_types: vec![
            "A".to_string(),
            "B".to_string(),
            "C".to_string(),
        ],
        pattern_class: PatternClass::GeneralNfa,
        variable_bindings: vec![],
        global_window: None,
        session_window: false,
        emit_all: false,
        brackets: None,
        state_to_step: vec![0, 1, 2, 3],
    };

    let sim = NfaSimulator::new(nfa(), false);

    let mut state = sim.create_state();
    let batch = make_batch(&[("A", 1), ("B", 2), ("C", 3)]);
    run(&sim, &mut state, &batch);
    assert_eq!(state.completions.len(), 1);

    let sim = NfaSimulator::new(nfa(), false);
    let mut state = sim.create_state();
    let batch = make_batch(&[("A", 1), ("B", 2), ("B", 3), ("B", 4), ("C", 5)]);
    run(&sim, &mut state, &batch);
    assert_eq!(state.completions.len(), 1);

    let sim = NfaSimulator::new(nfa(), false);
    let mut state = sim.create_state();
    let batch = make_batch(&[("A", 1), ("C", 2)]);
    run(&sim, &mut state, &batch);
    assert!(state.completions.is_empty());
}

#[test]
fn test_alternation() {
    let nfa = || CompiledNfa {
        states: vec![
            NfaState {
                transitions: vec![simple_transition("A", 1)],
                poison_transitions: vec![],
            },
            NfaState {
                transitions: vec![simple_transition("B", 2), simple_transition("C", 2)],
                poison_transitions: vec![],
            },
            NfaState {
                transitions: vec![simple_transition("D", 3)],
                poison_transitions: vec![],
            },
            NfaState {
                transitions: vec![],
                poison_transitions: vec![],
            },
        ],
        accept_state: 3,
        relevant_event_types: vec![
            "A".to_string(),
            "B".to_string(),
            "C".to_string(),
            "D".to_string(),
        ],
        pattern_class: PatternClass::GeneralNfa,
        variable_bindings: vec![],
        global_window: None,
        session_window: false,
        emit_all: false,
        brackets: None,
        state_to_step: vec![0, 1, 2, 3],
    };

    let sim = NfaSimulator::new(nfa(), false);

    let mut state = sim.create_state();
    let batch = make_batch(&[("A", 1), ("B", 2), ("D", 3)]);
    run(&sim, &mut state, &batch);
    assert_eq!(state.completions.len(), 1);

    let sim = NfaSimulator::new(nfa(), false);
    let mut state = sim.create_state();
    let batch = make_batch(&[("A", 1), ("C", 2), ("D", 3)]);
    run(&sim, &mut state, &batch);
    assert_eq!(state.completions.len(), 1);
}

#[test]
fn test_emit_all_completed_match() {
    let mut nfa = nfa_a_then_b();
    nfa.emit_all = true;
    let sim = NfaSimulator::new(nfa, false);
    let mut state = sim.create_state();

    let batch = make_batch(&[("A", 1), ("B", 2)]);
    run(&sim, &mut state, &batch);

    assert_eq!(state.completions.len(), 1);
}

#[test]
fn test_emit_all_partial_at_entity_end() {
    let mut nfa = nfa_a_then_b_then_c();
    nfa.emit_all = true;
    let sim = NfaSimulator::new(nfa, false);
    let mut state = sim.create_state();

    let batch = make_batch(&[("A", 1), ("B", 2)]);
    run(&sim, &mut state, &batch);

    let state = sim.finish_entity(state);

    assert!(state.completions.is_empty());
    assert!(!state.partials.is_empty());
    let max_step = state.partials.iter().map(|p| p.step_reached).max().unwrap();
    assert_eq!(max_step, 2);
}

#[test]
fn test_emit_all_window_expiry_emits_partial() {
    let mut nfa = nfa_a_then_b_then_c();
    nfa.emit_all = true;
    nfa.global_window = Some(5);
    let sim = NfaSimulator::new(nfa, false);
    let mut state = sim.create_state();

    let batch = make_batch(&[("A", 1), ("B", 3), ("A", 10)]);
    run(&sim, &mut state, &batch);

    assert!(state.completions.is_empty());
    assert!(!state.partials.is_empty());
}

#[test]
fn test_match_all_emit_all_interaction() {
    let mut nfa = nfa_a_then_b();
    nfa.emit_all = true;
    let sim = NfaSimulator::new(nfa, true);
    let mut state = sim.create_state();

    let batch = make_batch(&[("A", 1), ("A", 2), ("B", 3), ("A", 4), ("B", 5)]);
    run(&sim, &mut state, &batch);

    assert_eq!(state.completions.len(), 2);
    assert_eq!(state.completions[0].anchor_ts, 1);
    assert_eq!(state.completions[1].anchor_ts, 4);
    assert!(!state.partials.is_empty());
    let partial_steps: Vec<u8> = state.partials.iter().map(|p| p.step_reached).collect();
    assert!(partial_steps.contains(&1));
}

#[test]
fn test_cross_sub_batch() {
    let nfa = nfa_a_then_b_then_c();
    let sim = NfaSimulator::new(nfa, false);
    let mut state = sim.create_state();

    let batch1 = make_batch(&[("A", 1)]);
    run(&sim, &mut state, &batch1);
    assert!(state.completions.is_empty());

    let batch2 = make_batch(&[("B", 5)]);
    run(&sim, &mut state, &batch2);
    assert!(state.completions.is_empty());

    let batch3 = make_batch(&[("C", 10)]);
    run(&sim, &mut state, &batch3);
    assert_eq!(state.completions.len(), 1);
    assert_eq!(state.completions[0].anchor_ts, 1);
    assert_eq!(state.completions[0].final_ts, 10);
}

#[test]
fn test_multiple_anchors_kept() {
    let mut nfa = nfa_a_then_b_then_c();
    nfa.global_window = Some(10);
    let sim = NfaSimulator::new(nfa, false);
    let mut state = sim.create_state();

    let batch = make_batch(&[("A", 1), ("A", 5), ("B", 8), ("C", 14)]);
    run(&sim, &mut state, &batch);

    assert_eq!(state.completions.len(), 1);
    assert_eq!(state.completions[0].anchor_ts, 5);
    assert_eq!(state.completions[0].final_ts, 14);
}

#[test]
fn test_earliest_anchor_consumed() {
    let mut nfa = nfa_a_then_b();
    nfa.global_window = Some(100);
    let sim = NfaSimulator::new(nfa, false);
    let mut state = sim.create_state();

    let batch = make_batch(&[("A", 1), ("A", 2), ("B", 3)]);
    run(&sim, &mut state, &batch);

    assert_eq!(state.completions.len(), 1);
    assert_eq!(state.completions[0].anchor_ts, 1);
}

#[test]
fn test_active_state_limit() {
    let nfa = nfa_a_then_b();
    let sim = NfaSimulator::new(nfa, false).with_active_state_limit(3);
    let mut state = sim.create_state();

    let events: Vec<(&str, i64)> = (1..=10).map(|i| ("A", i as i64)).collect();
    let batch = make_batch(&events);
    run(&sim, &mut state, &batch);

    assert!(state.total_candidates() <= 3);
    assert!(state.dropped_count > 0);
}

#[test]
fn test_empty_batch() {
    let nfa = nfa_a_then_b();
    let sim = NfaSimulator::new(nfa, false);
    let mut state = sim.create_state();

    let batch = make_batch(&[]);
    run(&sim, &mut state, &batch);

    assert!(state.completions.is_empty());
    assert_eq!(state.total_candidates(), 0);
}

#[test]
fn test_single_event_entity() {
    let nfa = nfa_a_then_b();
    let sim = NfaSimulator::new(nfa, false);
    let mut state = sim.create_state();

    let batch = make_batch(&[("A", 1)]);
    run(&sim, &mut state, &batch);

    assert!(state.completions.is_empty());
    assert_eq!(state.total_candidates(), 1);
}

#[test]
fn test_irrelevant_events_only() {
    let nfa = nfa_a_then_b();
    let sim = NfaSimulator::new(nfa, false);
    let mut state = sim.create_state();

    let batch = make_batch(&[("X", 1), ("Y", 2), ("Z", 3)]);
    run(&sim, &mut state, &batch);

    assert!(state.completions.is_empty());
    assert_eq!(state.total_candidates(), 0);
}

#[test]
fn test_match_all_scan_from_prevents_reuse() {
    let nfa = nfa_a_then_b();
    let sim = NfaSimulator::new(nfa, true);
    let mut state = sim.create_state();

    let batch = make_batch(&[("A", 1), ("B", 2), ("A", 2), ("A", 3), ("B", 4)]);
    run(&sim, &mut state, &batch);

    assert_eq!(state.completions.len(), 2);
    assert_eq!(state.completions[0].anchor_ts, 1);
    assert_eq!(state.completions[1].anchor_ts, 3);
}

#[test]
fn test_no_cascading_same_event_type() {
    let nfa = CompiledNfa {
        states: vec![
            NfaState {
                transitions: vec![simple_transition("A", 1)],
                poison_transitions: vec![],
            },
            NfaState {
                transitions: vec![simple_transition("A", 2)],
                poison_transitions: vec![],
            },
            NfaState {
                transitions: vec![simple_transition("A", 3)],
                poison_transitions: vec![],
            },
            NfaState {
                transitions: vec![],
                poison_transitions: vec![],
            },
        ],
        accept_state: 3,
        relevant_event_types: vec!["A".to_string()],
        pattern_class: PatternClass::LinearSimple,
        variable_bindings: vec![],
        global_window: None,
        session_window: false,
        emit_all: false,
        brackets: None,
        state_to_step: vec![0, 1, 2, 3],
    };

    let sim = NfaSimulator::new(nfa, false);

    let mut state = sim.create_state();
    let batch = make_batch(&[("A", 1), ("A", 2), ("A", 3)]);
    run(&sim, &mut state, &batch);
    assert_eq!(state.completions.len(), 1);

    let mut state = sim.create_state();
    let batch = make_batch(&[("A", 1), ("A", 2)]);
    run(&sim, &mut state, &batch);
    assert!(state.completions.is_empty());
    assert!(state.state_deques[3].is_empty());
}

#[test]
fn test_predicate_filters_transition() {
    let predicate = CompiledExpr {
        node: CompiledNode::Compare {
            left: Box::new(CompiledExpr {
                node: CompiledNode::Column { index: 2, name: "amount".to_string() },
            }),
            right: Box::new(CompiledExpr {
                node: CompiledNode::Literal(PropertyValue::Float(100.0f64.to_bits())),
            }),
            op: CompareOp::Greater,
        },
    };

    let nfa = CompiledNfa {
        states: vec![
            NfaState {
                transitions: vec![simple_transition("A", 1)],
                poison_transitions: vec![],
            },
            NfaState {
                transitions: vec![Transition {
                    event_type: "B".to_string(),
                    predicates: vec![predicate],
                    bind_variables: vec![],
                    check_variables: vec![],
                    target: 2,
                }],
                poison_transitions: vec![],
            },
            NfaState {
                transitions: vec![],
                poison_transitions: vec![],
            },
        ],
        accept_state: 2,
        relevant_event_types: vec!["A".to_string(), "B".to_string()],
        pattern_class: PatternClass::LinearSimple,
        variable_bindings: vec![],
        global_window: None,
        session_window: false,
        emit_all: false,
        brackets: None,
        state_to_step: vec![0, 1, 2],
    };

    let sim = NfaSimulator::new(nfa, false);

    let mut state = sim.create_state();
    let events = &[("A", 1, 0.0), ("B", 2, 50.0)];
    let batch = make_batch_with_amount(events);
    let cache = PredicateCache {
        results: vec![Some(events.iter().map(|(_, _, a)| Some(*a > 100.0)).collect())],
    };
    sim.process_batch(&mut state, &batch, "event_type", "ts", &cache);
    assert!(state.completions.is_empty());

    let mut state = sim.create_state();
    let events = &[("A", 1, 0.0), ("B", 2, 200.0)];
    let batch = make_batch_with_amount(events);
    let cache = PredicateCache {
        results: vec![Some(events.iter().map(|(_, _, a)| Some(*a > 100.0)).collect())],
    };
    sim.process_batch(&mut state, &batch, "event_type", "ts", &cache);
    assert_eq!(state.completions.len(), 1);
}

#[test]
fn test_finish_entity_without_emit_all() {
    let nfa = nfa_a_then_b();
    let sim = NfaSimulator::new(nfa, false);
    let mut state = sim.create_state();

    let batch = make_batch(&[("A", 1)]);
    run(&sim, &mut state, &batch);

    let state = sim.finish_entity(state);
    assert!(state.partials.is_empty());
}

#[test]
fn test_finish_entity_with_emit_all() {
    let mut nfa = nfa_a_then_b_then_c();
    nfa.emit_all = true;
    let sim = NfaSimulator::new(nfa, false);
    let mut state = sim.create_state();

    let batch = make_batch(&[("A", 1), ("B", 5)]);
    run(&sim, &mut state, &batch);

    let state = sim.finish_entity(state);
    assert!(!state.partials.is_empty());
}

#[test]
fn an_event_advances_no_candidate_of_its_own_time() {
    let sim = NfaSimulator::new(linear(&["A", "A"]), true);
    let mut state = sim.create_state();
    run(&sim, &mut state, &make_batch(&[("A", 7), ("A", 7), ("A", 8)]));
    assert_eq!(state.completions.len(), 1);
    assert_eq!((state.completions[0].anchor_ts, state.completions[0].final_ts), (7, 8));
}

#[test]
fn matches_begin_after_the_match_before() {
    let sim = NfaSimulator::new(nfa_a_then_b(), true);
    let mut state = sim.create_state();
    run(
        &sim,
        &mut state,
        &make_batch(&[("A", 1), ("A", 2), ("B", 3), ("B", 4), ("A", 5), ("B", 5), ("B", 9)]),
    );
    let found: Vec<(i64, i64)> =
        state.completions().iter().map(|c| (c.anchor_ts, c.final_ts)).collect();
    assert_eq!(found, vec![(1, 3), (5, 9)]);
}

#[test]
fn a_predicate_that_cannot_be_evaluated_lets_no_event_pass() {
    let mut nfa = nfa_a_then_b();
    nfa.states[1].transitions[0].predicates.push(CompiledExpr {
        node: CompiledNode::Literal(PropertyValue::Bool(true)),
    });
    let sim = NfaSimulator::new(nfa, false);
    let batch = make_batch(&[("A", 1), ("B", 2)]);

    let mut state = sim.create_state();
    let unknown = PredicateCache { results: vec![None] };
    sim.process_batch(&mut state, &batch, "event_type", "ts", &unknown);
    assert!(state.completions().is_empty());

    let mut state = sim.create_state();
    let null = PredicateCache { results: vec![Some(vec![Some(true), None])] };
    sim.process_batch(&mut state, &batch, "event_type", "ts", &null);
    assert!(state.completions().is_empty());

    let mut state = sim.create_state();
    let holds = PredicateCache { results: vec![Some(vec![None, Some(true)])] };
    sim.process_batch(&mut state, &batch, "event_type", "ts", &holds);
    assert_eq!(state.completions().len(), 1);
}

#[test]
fn matches_begin_inside_the_entry_range() {
    let range = TimeRange { start: 2, end: 5 };
    let sim = NfaSimulator::new(nfa_a_then_b(), true).with_entry_range(Some(range));
    let mut state = sim.create_state();
    run(
        &sim,
        &mut state,
        &make_batch(&[("A", 1), ("B", 2), ("A", 2), ("B", 9), ("A", 10), ("B", 11)]),
    );
    let found: Vec<(i64, i64)> =
        state.completions().iter().map(|c| (c.anchor_ts, c.final_ts)).collect();
    assert_eq!(found, vec![(2, 9)]);
}

#[test]
fn the_oldest_candidates_are_dropped_over_the_limit() {
    let sim = NfaSimulator::new(nfa_a_then_b(), false).with_active_state_limit(3);
    let mut state = sim.create_state();
    let events: Vec<(&str, i64)> = (1..=10).map(|i| ("A", i)).collect();
    run(&sim, &mut state, &make_batch(&events));
    assert_eq!(state.total_candidates(), 3);
    assert_eq!(state.dropped_count(), 7);
    run(&sim, &mut state, &make_batch(&[("B", 20)]));
    assert_eq!(state.completions()[0].anchor_ts, 8);
}

#[test]
fn timestamps_may_be_nanoseconds() {
    let schema = Arc::new(Schema::new(vec![
        Field::new("event_type", DataType::Utf8View, false),
        Field::new("ts", DataType::Timestamp(TimeUnit::Nanosecond, None), false),
    ]));
    let inner = RecordBatch::try_new(
        schema,
        vec![
            Arc::new(StringViewArray::from(vec!["A", "B"])),
            Arc::new(TimestampNanosecondArray::from(vec![3, 8])),
        ],
    )
    .unwrap();
    let sim = NfaSimulator::new(nfa_a_then_b(), false);
    let mut state = sim.create_state();
    run(&sim, &mut state, &Batch { inner });
    assert_eq!((state.completions[0].anchor_ts, state.completions[0].final_ts), (3, 8));
}

#[test]
fn a_batch_without_usable_columns_is_ignored() {
    let schema = Arc::new(Schema::new(vec![
        Field::new("event_type", DataType::Utf8, false),
        Field::new("ts", DataType::Int64, false),
    ]));
    let inner = RecordBatch::try_new(
        schema,
        vec![
            Arc::new(StringArray::from(vec!["A", "B"])),
            Arc::new(Int64Array::from(vec![1, 2])),
        ],
    )
    .unwrap();
    let batch = Batch { inner };
    let sim = NfaSimulator::new(nfa_a_then_b(), false);
    let mut state = sim.create_state();
    run(&sim, &mut state, &batch);
    let cache = PredicateCache { results: vec![] };
    sim.process_batch(&mut state, &batch, "event_type", "missing", &cache);
    assert_eq!(state.total_candidates(), 0);
}

#[test]
fn predicates_are_listed_state_by_state() {
    let numbered = |n: i64| CompiledExpr { node: CompiledNode::Literal(PropertyValue::Int(n)) };
    let mut nfa = nfa_a_then_b();
    nfa.states[0].transitions[0].predicates = vec![numbered(0), numbered(1)];
    nfa.states[0].poison_transitions =
        vec![PoisonTransition { event_type: "X".into(), predicates: vec![numbered(2)] }];
    nfa.states[1].transitions[0].predicates = vec![numbered(3)];
    nfa.states[1].poison_transitions = vec![
        simple_poison("Y"),
        PoisonTransition { event_type: "Z".into(), predicates: vec![numbered(4), numbered(5)] },
    ];
    let found: Vec<i64> = nfa
        .predicates()
        .iter()
        .map(|e| match e.node {
            CompiledNode::Literal(PropertyValue::Int(n)) => n,
            _ => panic!("unexpected predicate"),
        })
        .collect();
    assert_eq!(found, vec![0, 1, 2, 3, 4, 5]);

    let yes = || Some(vec![Some(true), Some(true)]);
    let sim = NfaSimulator::new(nfa, false);
    let batch = make_batch(&[("A", 1), ("B", 2)]);
    for failing in 0..6 {
        let mut results: Vec<Option<Vec<Option<bool>>>> = (0..6).map(|_| yes()).collect();
        results[failing] = Some(vec![Some(false), Some(false)]);
        let mut state = sim.create_state();
        let cache = PredicateCache { results };
        sim.process_batch(&mut state, &batch, "event_type", "ts", &cache);
        let found = state.completions().len();
        assert_eq!(found, if [0, 1, 3].contains(&failing) { 0 } else { 1 }, "{failing}");
    }
}

fn candidate(anchor_ts: i64, last_step_ts: i64) -> CandidateEntry {
    CandidateEntry { anchor_ts, last_step_ts }
}

fn candidates(list: &StateCandidates) -> Vec<CandidateEntry> {
    list.candidates.iter().copied().collect()
}

#[test]
fn every_expired_candidate_goes() {
    let mut s = StateCandidates::new();
    s.insert_dedup(candidate(5, 5));
    s.insert_dedup(candidate(3, 3));
    assert_eq!(s.expire_window(14, 10), 1);
    assert_eq!(candidates(&s), vec![candidate(5, 5)]);
    assert_eq!(s.expire_window(15, 10), 0);
    assert_eq!(s.expire_window(16, 10), 1);
    assert!(s.is_empty());
}

#[test]
fn one_anchor_has_one_candidate() {
    let mut s = StateCandidates::new();
    s.insert_dedup(candidate(5, 5));
    s.insert_dedup(candidate(3, 3));
    s.insert_dedup(candidate(5, 9));
    s.insert_dedup(candidate(3, 2));
    assert_eq!(s.len(), 2);
    assert_eq!(candidates(&s), vec![candidate(5, 9), candidate(3, 3)]);
}

#[test]
fn expired_candidates_behind_others_are_reported() {
    let mut nfa = nfa_a_then_b();
    nfa.global_window = Some(10);
    nfa.emit_all = true;
    let sim = NfaSimulator::new(nfa, false);
    let mut state = sim.create_state();
    run(&sim, &mut state, &make_batch(&[("A", 5), ("A", 3), ("B", 14)]));
    let partials: Vec<i64> = state.partials.iter().map(|p| p.anchor_ts).collect();
    assert_eq!(partials, vec![3]);
    assert_eq!(state.completions.len(), 1);
    assert_eq!(state.completions[0].anchor_ts, 5);
}

#[test]
fn the_limit_holds_at_the_end_of_time() {
    let sim = NfaSimulator::new(nfa_a_then_b_then_c(), false).with_active_state_limit(1);
    let mut state = sim.create_state();
    run(&sim, &mut state, &make_batch(&[("A", i64::MAX - 1), ("A", i64::MAX), ("A", i64::MAX)]));
    let left: usize = state.state_deques.iter().map(|d| d.len()).sum();
    assert_eq!(left, 1);
    assert_eq!(state.dropped_count, 1);
}

#[test]
fn a_match_that_the_events_make_up_is_reported() {
    let sim = NfaSimulator::new(nfa_a_then_b_then_c(), true);
    let mut state = sim.create_state();
    let mut nfa = nfa_a_then_b_then_c();
    nfa.global_window = Some(9);
    let narrow = NfaSimulator::new(nfa, true);
    let mut inside = narrow.create_state();
    let events = [("A", 1), ("B", 2), ("A", 3), ("B", 4), ("B", 5), ("C", 10)];
    for n in 0..events.len() {
        run(&sim, &mut state, &make_batch(&events[n..n + 1]));
        run(&narrow, &mut inside, &make_batch(&events[n..n + 1]));
        assert_eq!(state.completions.len(), usize::from(n + 1 == events.len()));
        assert_eq!(inside.completions.len(), state.completions.len());
    }
    // After a match the next one is found too.
    let more = [("A", 11), ("B", 12), ("C", 13)];
    run(&sim, &mut state, &make_batch(&more));
    assert_eq!(state.completions.len(), 2);
    assert_eq!((state.completions[1].anchor_ts, state.completions[1].final_ts), (11, 13));
}

#[test]
fn an_event_at_the_time_of_the_latest_way_into_a_state_takes_nothing_on() {
    let sim = NfaSimulator::new(nfa_a_then_b_then_c(), false);
    let mut state = sim.create_state();
    run(&sim, &mut state, &make_batch(&[("A", 1), ("B", 2), ("B", 3), ("C", 3)]));
    assert!(state.completions.is_empty());
    run(&sim, &mut state, &make_batch(&[("C", 4)]));
    assert_eq!(state.completions.len(), 1);
}
