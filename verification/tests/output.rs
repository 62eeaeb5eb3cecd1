//! What a sequence match shows of its results.

use arrow::array::{
    Array, BooleanArray, Float64Array, Int64Array, StringViewArray, TimestampNanosecondArray,
};

use bqlite_operators::columnar::Batch;
use bqlite_operators::matcher::bindings::BindingValue;
use bqlite_operators::matcher::nfa::{MatchCompletion, PartialMatch};
use bqlite_operators::matcher::output::build_output_batch;
use bqlite_operators::matcher::pattern::BracketSpec;
use bqlite_operators::schema::{BqlType, ColumnDef, OperatorSchema};

fn schema_with_duration() -> OperatorSchema {
    OperatorSchema::new(vec![
        ColumnDef::required("entity_id", BqlType::String),
        ColumnDef::nullable("match_duration", BqlType::Int),
    ])
    .unwrap()
}

fn schema_with_step_reached() -> OperatorSchema {
    OperatorSchema::new(vec![
        ColumnDef::required("entity_id", BqlType::String),
        ColumnDef::required("step_reached", BqlType::Int),
    ])
    .unwrap()
}

fn schema_with_brackets(extra: Vec<ColumnDef>) -> OperatorSchema {
    let mut cols = vec![
        ColumnDef::required("entity_id", BqlType::String),
        ColumnDef::required("step_reached", BqlType::Int),
        ColumnDef::required("bracket", BqlType::Int),
        ColumnDef::required("bracket_end", BqlType::Int),
    ];
    cols.extend(extra);
    OperatorSchema::new(cols).unwrap()
}

fn brackets(durations: &[i64], cumulative: bool) -> BracketSpec {
    BracketSpec { durations: durations.to_vec(), cumulative }
}

fn pull_int(batch: &Batch, name: &str) -> Vec<Option<i64>> {
    let arr = batch
        .inner
        .column_by_name(name)
        .unwrap()
        .as_any()
        .downcast_ref::<Int64Array>()
        .unwrap();
    arr.iter().collect()
}

#[test]
fn empty_results_produce_empty_batch() {
    let schema = schema_with_duration();
    let batch = build_output_batch(&schema, &vec![], &vec![], false, 3, None);
    assert_eq!(batch.inner.num_rows(), 0);
}

#[test]
fn completions_produce_duration() {
    let schema = schema_with_duration();
    let completions = vec![
        MatchCompletion {
            anchor_ts: 100,
            final_ts: 400,
            bindings: Vec::new(),
        },
        MatchCompletion {
            anchor_ts: 500,
            final_ts: 900,
            bindings: Vec::new(),
        },
    ];
    let batch = build_output_batch(&schema, &completions, &vec![], false, 2, None);
    assert_eq!(batch.inner.num_rows(), 2);

    assert_eq!(
        pull_int(&batch, "match_duration"),
        vec![Some(300), Some(400)]
    );
}

#[test]
fn emit_all_includes_partials_with_step_reached() {
    let schema = schema_with_step_reached();
    let completions = vec![MatchCompletion {
        anchor_ts: 100,
        final_ts: 300,
        bindings: Vec::new(),
    }];
    let partials = vec![PartialMatch {
        anchor_ts: 400,
        step_reached: 2,
        bindings: Vec::new(),
    }];
    let batch = build_output_batch(&schema, &completions, &partials, true, 3, None);
    assert_eq!(batch.inner.num_rows(), 2);

    assert_eq!(pull_int(&batch, "step_reached"), vec![Some(3), Some(2)]);
}

#[test]
fn partials_ignored_without_emit_all() {
    let schema = schema_with_step_reached();
    let completions = vec![MatchCompletion {
        anchor_ts: 100,
        final_ts: 300,
        bindings: Vec::new(),
    }];
    let partials = vec![PartialMatch {
        anchor_ts: 400,
        step_reached: 1,
        bindings: Vec::new(),
    }];
    let batch = build_output_batch(&schema, &completions, &partials, false, 3, None);
    assert_eq!(batch.inner.num_rows(), 1);
}

#[test]
fn brackets_exclusive_completion_in_first_bracket_emit_all() {
    let schema = schema_with_brackets(vec![]);
    let completions = vec![MatchCompletion {
        anchor_ts: 0,
        final_ts: 12 * 60 * 60 * 1_000_000_000,
        bindings: Vec::new(),
    }];
    let spec = brackets(
        &[
            86_400_000_000_000,
            7 * 86_400_000_000_000,
            14 * 86_400_000_000_000,
            30 * 86_400_000_000_000,
        ],
        false,
    );
    let batch = build_output_batch(&schema, &completions, &vec![], true, 2, Some(&spec));
    assert_eq!(batch.inner.num_rows(), 4);
    assert_eq!(
        pull_int(&batch, "step_reached"),
        vec![Some(2), Some(0), Some(0), Some(0)]
    );
    assert_eq!(
        pull_int(&batch, "bracket"),
        vec![Some(0), Some(1), Some(2), Some(3)]
    );
    assert_eq!(
        pull_int(&batch, "bracket_end"),
        vec![
            Some(86_400_000_000_000),
            Some(7 * 86_400_000_000_000),
            Some(14 * 86_400_000_000_000),
            Some(30 * 86_400_000_000_000),
        ]
    );
}

#[test]
fn brackets_exclusive_completion_in_middle_bracket_emit_all() {
    let schema = schema_with_brackets(vec![]);
    let completions = vec![MatchCompletion {
        anchor_ts: 0,
        final_ts: 9 * 86_400_000_000_000,
        bindings: Vec::new(),
    }];
    let spec = brackets(
        &[
            86_400_000_000_000,
            7 * 86_400_000_000_000,
            14 * 86_400_000_000_000,
            30 * 86_400_000_000_000,
        ],
        false,
    );
    let batch = build_output_batch(&schema, &completions, &vec![], true, 2, Some(&spec));
    assert_eq!(
        pull_int(&batch, "step_reached"),
        vec![Some(1), Some(0), Some(2), Some(0)]
    );
}

#[test]
fn brackets_exclusive_completion_past_max_bucket_emit_all() {
    let schema = schema_with_brackets(vec![]);
    let completions = vec![MatchCompletion {
        anchor_ts: 0,
        final_ts: 50 * 86_400_000_000_000,
        bindings: Vec::new(),
    }];
    let spec = brackets(
        &[
            86_400_000_000_000,
            7 * 86_400_000_000_000,
            14 * 86_400_000_000_000,
            30 * 86_400_000_000_000,
        ],
        false,
    );
    let batch = build_output_batch(&schema, &completions, &vec![], true, 2, Some(&spec));
    assert_eq!(
        pull_int(&batch, "step_reached"),
        vec![Some(1), Some(0), Some(0), Some(0)]
    );
}

#[test]
fn brackets_cumulative_completion_is_monotone_emit_all() {
    let schema = schema_with_brackets(vec![]);
    let completions = vec![MatchCompletion {
        anchor_ts: 0,
        final_ts: 9 * 86_400_000_000_000,
        bindings: Vec::new(),
    }];
    let spec = brackets(
        &[
            86_400_000_000_000,
            7 * 86_400_000_000_000,
            14 * 86_400_000_000_000,
            30 * 86_400_000_000_000,
        ],
        true,
    );
    let batch = build_output_batch(&schema, &completions, &vec![], true, 2, Some(&spec));
    assert_eq!(
        pull_int(&batch, "step_reached"),
        vec![Some(1), Some(1), Some(2), Some(2)]
    );
}

#[test]
fn brackets_partial_only_under_emit_all() {
    let schema = schema_with_brackets(vec![]);
    let partials = vec![PartialMatch {
        anchor_ts: 0,
        step_reached: 1,
        bindings: Vec::new(),
    }];
    let spec = brackets(
        &[
            86_400_000_000_000,
            7 * 86_400_000_000_000,
            14 * 86_400_000_000_000,
            30 * 86_400_000_000_000,
        ],
        false,
    );
    let batch = build_output_batch(&schema, &vec![], &partials, true, 2, Some(&spec));
    assert_eq!(
        pull_int(&batch, "step_reached"),
        vec![Some(1), Some(0), Some(0), Some(0)]
    );
    assert_eq!(
        pull_int(&batch, "bracket"),
        vec![Some(0), Some(1), Some(2), Some(3)]
    );
}

#[test]
fn brackets_partial_cumulative_propagates_anchor_to_all_brackets() {
    let schema = schema_with_brackets(vec![]);
    let partials = vec![PartialMatch {
        anchor_ts: 0,
        step_reached: 1,
        bindings: Vec::new(),
    }];
    let spec = brackets(
        &[
            86_400_000_000_000,
            7 * 86_400_000_000_000,
            14 * 86_400_000_000_000,
            30 * 86_400_000_000_000,
        ],
        true,
    );
    let batch = build_output_batch(&schema, &vec![], &partials, true, 2, Some(&spec));
    assert_eq!(
        pull_int(&batch, "step_reached"),
        vec![Some(1), Some(1), Some(1), Some(1)]
    );
}

#[test]
fn brackets_without_emit_all_emits_only_completed_bracket_exclusive() {
    let schema = schema_with_brackets(vec![]);
    let completions = vec![MatchCompletion {
        anchor_ts: 0,
        final_ts: 9 * 86_400_000_000_000,
        bindings: Vec::new(),
    }];
    let spec = brackets(
        &[
            86_400_000_000_000,
            7 * 86_400_000_000_000,
            14 * 86_400_000_000_000,
            30 * 86_400_000_000_000,
        ],
        false,
    );
    let batch = build_output_batch(&schema, &completions, &vec![], false, 2, Some(&spec));
    assert_eq!(batch.inner.num_rows(), 1);
    assert_eq!(pull_int(&batch, "bracket"), vec![Some(2)]);
    assert_eq!(pull_int(&batch, "step_reached"), vec![Some(2)]);
}

#[test]
fn brackets_without_emit_all_emits_contiguous_tail_cumulative() {
    let schema = schema_with_brackets(vec![]);
    let completions = vec![MatchCompletion {
        anchor_ts: 0,
        final_ts: 9 * 86_400_000_000_000,
        bindings: Vec::new(),
    }];
    let spec = brackets(
        &[
            86_400_000_000_000,
            7 * 86_400_000_000_000,
            14 * 86_400_000_000_000,
            30 * 86_400_000_000_000,
        ],
        true,
    );
    let batch = build_output_batch(&schema, &completions, &vec![], false, 2, Some(&spec));
    assert_eq!(batch.inner.num_rows(), 2);
    assert_eq!(pull_int(&batch, "bracket"), vec![Some(2), Some(3)]);
    assert_eq!(pull_int(&batch, "step_reached"), vec![Some(2), Some(2)]);
}

#[test]
fn brackets_without_emit_all_completion_past_max_emits_zero_rows() {
    let schema = schema_with_brackets(vec![]);
    let completions = vec![MatchCompletion {
        anchor_ts: 0,
        final_ts: 100 * 86_400_000_000_000,
        bindings: Vec::new(),
    }];
    let spec = brackets(&[86_400_000_000_000, 7 * 86_400_000_000_000], false);
    let batch = build_output_batch(&schema, &completions, &vec![], false, 2, Some(&spec));
    assert_eq!(batch.inner.num_rows(), 0);
}

#[test]
fn brackets_with_bindings_carry_binding_values_per_bracket_row() {
    let schema = schema_with_brackets(vec![ColumnDef::required("$plan", BqlType::String)]);
    let completions = vec![
        MatchCompletion {
            anchor_ts: 0,
            final_ts: 9 * 86_400_000_000_000,
            bindings: vec![BindingValue::String("free".into())],
        },
        MatchCompletion {
            anchor_ts: 0,
            final_ts: 20 * 86_400_000_000_000,
            bindings: vec![BindingValue::String("pro".into())],
        },
    ];
    let spec = brackets(
        &[
            86_400_000_000_000,
            7 * 86_400_000_000_000,
            14 * 86_400_000_000_000,
            30 * 86_400_000_000_000,
        ],
        false,
    );
    let batch = build_output_batch(&schema, &completions, &vec![], true, 2, Some(&spec));
    assert_eq!(batch.inner.num_rows(), 8);

    let plan = batch
        .inner
        .column_by_name("$plan")
        .unwrap()
        .as_any()
        .downcast_ref::<StringViewArray>()
        .unwrap();
    let plans: Vec<&str> = (0..plan.len()).map(|i| plan.value(i)).collect();
    assert_eq!(
        plans,
        vec!["free", "free", "free", "free", "pro", "pro", "pro", "pro"]
    );

    assert_eq!(
        pull_int(&batch, "step_reached"),
        vec![
            Some(1),
            Some(0),
            Some(2),
            Some(0),
            Some(1),
            Some(0),
            Some(0),
            Some(2),
        ]
    );
}

fn completion(anchor_ts: i64, final_ts: i64) -> MatchCompletion {
    MatchCompletion { anchor_ts, final_ts, bindings: Vec::new() }
}

#[test]
fn cumulative_step_reached_never_falls() {
    for delta in [0, 1, 9, 10, 11, 99, 100, 101, 500] {
        for steps in 1..=4u8 {
            let batch = build_output_batch(
                &schema_with_brackets(vec![]),
                &vec![completion(0, delta)],
                &vec![],
                true,
                steps,
                Some(&brackets(&[10, 100, 101], true)),
            );
            let reached = pull_int(&batch, "step_reached");
            assert!(reached.windows(2).all(|w| w[0] <= w[1]));
            assert_eq!(reached[2] == Some(steps as i64), delta <= 101 || steps == 1);
        }
    }
}

#[test]
fn a_match_completes_in_exactly_one_bracket() {
    for (delta, bracket) in [(0, 0), (10, 0), (11, 1), (100, 1), (101, 2)] {
        let batch = build_output_batch(
            &schema_with_brackets(vec![]),
            &vec![completion(7, 7 + delta)],
            &vec![],
            false,
            3,
            Some(&brackets(&[10, 100, 200], false)),
        );
        assert_eq!(pull_int(&batch, "bracket"), vec![Some(bracket)]);
    }
}

#[test]
fn unfinished_matches_have_no_duration() {
    let batch = build_output_batch(
        &schema_with_duration(),
        &vec![completion(5, 8)],
        &vec![PartialMatch { anchor_ts: 9, step_reached: 1, bindings: Vec::new() }],
        true,
        2,
        None,
    );
    assert_eq!(pull_int(&batch, "match_duration"), vec![Some(3), None]);
}

#[test]
fn bound_values_are_shown_by_the_type_of_their_column() {
    let schema = OperatorSchema::new(vec![
        ColumnDef::required("entity_id", BqlType::String),
        ColumnDef::nullable("$n", BqlType::Int),
        ColumnDef::nullable("$t", BqlType::Timestamp),
        ColumnDef::nullable("$f", BqlType::Float),
        ColumnDef::nullable("$b", BqlType::Bool),
        ColumnDef::nullable("other", BqlType::Int),
    ])
    .unwrap();
    let done = MatchCompletion {
        anchor_ts: 1,
        final_ts: 2,
        bindings: vec![
            BindingValue::Int(4),
            BindingValue::Timestamp(17),
            BindingValue::Float(2.5f64.to_bits()),
            BindingValue::Bool(true),
        ],
    };
    let batch = build_output_batch(&schema, &vec![done], &vec![], false, 1, None).inner;
    let ints: &Int64Array = batch.column(1).as_any().downcast_ref().unwrap();
    assert_eq!(ints.value(0), 4);
    let stamps: &TimestampNanosecondArray = batch.column(2).as_any().downcast_ref().unwrap();
    assert_eq!(stamps.value(0), 17);
    let floats: &Float64Array = batch.column(3).as_any().downcast_ref().unwrap();
    assert_eq!(floats.value(0), 2.5);
    let bools: &BooleanArray = batch.column(4).as_any().downcast_ref().unwrap();
    assert!(bools.value(0));
    assert!(batch.column(5).is_null(0));
}
