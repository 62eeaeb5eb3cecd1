//! Selections of rows.

use arrow::array::BooleanArray;

use bqlite_operators::selection::{
    RowRun, RowSelection, SelectionVector, is_dense, selection_as_vector, selection_to_bool_array,
};

#[test]
fn selection_to_bool_array_from_indices() {
    let sel = RowSelection::from_indices(SelectionVector::from_sorted(vec![0, 2, 4]));
    let arr = selection_to_bool_array(&sel, 5);
    let vals: Vec<Option<bool>> = BooleanArray::from(arr).iter().collect();
    assert_eq!(
        vals,
        vec![Some(true), Some(false), Some(true), Some(false), Some(true)]
    );
}

#[test]
fn selection_to_bool_array_from_runs() {
    let sel = RowSelection::Runs(vec![
        RowRun { start: 0, len: 2 },
        RowRun { start: 4, len: 2 },
    ]);
    let arr = selection_to_bool_array(&sel, 6);
    let vals: Vec<bool> = BooleanArray::from(arr).iter().map(|v| v.unwrap()).collect();
    assert_eq!(vals, vec![true, true, false, false, true, true]);
}

#[test]
fn is_dense_detects_full_selection() {
    let dense = RowSelection::from_indices(SelectionVector::from_sorted(vec![0, 1, 2, 3]));
    assert!(is_dense(&dense, 4));
    let sparse = RowSelection::from_indices(SelectionVector::from_sorted(vec![0, 2]));
    assert!(!is_dense(&sparse, 4));
}

#[test]
fn selection_as_vector_expands_runs() {
    let sel = RowSelection::Runs(vec![RowRun { start: 3, len: 2 }]);
    let sv = selection_as_vector(&sel);
    assert_eq!(sv.as_slice(), &[3, 4]);
}

#[test]
fn rows_past_the_end_are_not_in_the_mask() {
    let runs = RowSelection::from_runs(vec![RowRun { start: 1, len: 9 }]);
    let vals: Vec<Option<bool>> =
        BooleanArray::from(selection_to_bool_array(&runs, 3)).iter().collect();
    assert_eq!(vals, vec![Some(false), Some(true), Some(true)]);
}

#[test]
fn all_rows_are_dense_and_none_are_empty() {
    let all = RowSelection::all(4);
    assert_eq!(all.len(), 4);
    assert!(is_dense(&all, 4));
    assert_eq!(selection_as_vector(&all).as_slice(), &[0, 1, 2, 3]);
    let none = RowSelection::empty();
    assert!(none.is_empty());
    assert!(!is_dense(&none, 1));
    assert_eq!(SelectionVector::new().len(), 0);
}

#[test]
fn order_and_bounds_of_a_selection_are_checked() {
    let run = |start: u32, len: u32| RowRun { start, len };
    let runs = |list: Vec<RowRun>| RowSelection::Runs(list);
    assert!(runs(vec![run(0, 2), run(2, 0), run(2, 3)]).is_ascending());
    assert!(!runs(vec![run(0, 2), run(1, 1)]).is_ascending());
    assert!(!runs(vec![run(u32::MAX, 1)]).is_ascending());
    assert!(runs(vec![run(0, 2), run(3, 2)]).is_within(5));
    assert!(!runs(vec![run(0, 2), run(3, 2)]).is_within(4));
    assert!(runs(vec![run(9, 0)]).is_within(1));
    let rows = |indices: Vec<u32>| RowSelection::Indices(SelectionVector { indices });
    assert!(rows(vec![0, 1, 7]).is_ascending());
    assert!(!rows(vec![0, 7, 7]).is_ascending());
    assert!(rows(vec![]).is_ascending());
    assert!(rows(vec![0, 7]).is_within(8));
    assert!(!rows(vec![0, 7]).is_within(7));
}
