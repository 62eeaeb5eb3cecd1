//! What the tests handed to the storage layer say of the predicates of a scan.

use vstd::prelude::*;

use super::predicate::{ConjunctView, conjunct_holds, expr_holds, lowered_expr, lowered_exprs,
    tested_columns, theorem_lowering_exact};
use crate::expr::{CompiledExpr, CompiledNode};
use crate::value::PropertyView;

verus! {

/// Whether an expression compares a column with a constant that is not null, tests a
/// column for null, or looks a column up in a list of constants.
pub open spec fn is_test(e: CompiledExpr) -> bool {
    match e.node {
        CompiledNode::Compare { left, right, .. } => {
            ||| left.node is Column && (right.node matches CompiledNode::Literal(v) && !(v@ is Null))
            ||| right.node is Column && (left.node matches CompiledNode::Literal(v) && !(v@ is Null))
        },
        CompiledNode::IsNull { input, .. } => input.node is Column,
        CompiledNode::InLiteralSet { input, values, negated } => input.node is Column && !negated
            && values@.len() > 0,
        _ => false,
    }
}

/// The column that such an expression is about.
pub open spec fn column_of(e: CompiledExpr) -> Seq<char> {
    match e.node {
        CompiledNode::Compare { left, right, .. } => match (left.node, right.node) {
            (CompiledNode::Column { name, .. }, _) => name@,
            (_, CompiledNode::Column { name, .. }) => name@,
            _ => Seq::empty(),
        },
        CompiledNode::IsNull { input, .. } => match input.node {
            CompiledNode::Column { name, .. } => name@,
            _ => Seq::empty(),
        },
        CompiledNode::InLiteralSet { input, .. } => match input.node {
            CompiledNode::Column { name, .. } => name@,
            _ => Seq::empty(),
        },
        _ => Seq::empty(),
    }
}

/// Whether exchanging two values reverses their order.
pub open spec fn is_antisymmetric(order: spec_fn(PropertyView, PropertyView) -> Option<int>) -> bool {
    forall|a: PropertyView, b: PropertyView|
        match (#[trigger] order(a, b), order(b, a)) {
            (Some(x), Some(y)) => x == -y,
            (None, None) => true,
            _ => false,
        }
}

/// Whether a test says of every row what an expression says of it.
pub open spec fn says_the_same(
    c: ConjunctView,
    e: CompiledExpr,
    row: spec_fn(Seq<char>) -> PropertyView,
    order: spec_fn(PropertyView, PropertyView) -> Option<int>,
) -> bool {
    &&& conjunct_holds(c, row, order) <==> expr_holds(e, row, order)
    &&& c.column() == column_of(e)
}

proof fn lemma_tests(e: CompiledExpr)
    ensures
        lowered_expr(e) is Some == is_test(e),
        lowered_expr(e) matches Some(c) ==> c.column() == column_of(e),
{
}

proof fn lemma_list(
    list: Seq<CompiledExpr>,
    n: int,
    row: spec_fn(Seq<char>) -> PropertyView,
    order: spec_fn(PropertyView, PropertyView) -> Option<int>,
)
    requires
        0 <= n <= list.len(),
        is_antisymmetric(order),
    ensures
        ({
            let tests = list.take(n).filter(|e: CompiledExpr| is_test(e));
            let lowered = lowered_exprs(list, n);
            &&& lowered.len() == tests.len()
            &&& forall|k: int|
                0 <= k < lowered.len() ==> says_the_same(
                    #[trigger] lowered[k],
                    tests[k],
                    row,
                    order,
                )
        }),
    decreases n,
{
    reveal(Seq::filter);
    if n > 0 {
        lemma_list(list, n - 1, row, order);
        assert(list.take(n).drop_last() =~= list.take(n - 1));
        lemma_tests(list[n - 1]);
        if lowered_expr(list[n - 1]) is Some {
            theorem_lowering_exact(list[n - 1], row, order);
        }
    }
}

/// The tests handed to the storage layer are those expressions of a list that are tests,
/// in their order: each holds on exactly the rows on which its expression holds, in
/// whatever way values are ordered.
pub proof fn theorem_list_lowered(
    list: Seq<CompiledExpr>,
    row: spec_fn(Seq<char>) -> PropertyView,
    order: spec_fn(PropertyView, PropertyView) -> Option<int>,
)
    requires
        is_antisymmetric(order),
    ensures
        ({
            let tests = list.filter(|e: CompiledExpr| is_test(e));
            let lowered = lowered_exprs(list, list.len() as int);
            &&& lowered.len() == tests.len()
            &&& forall|k: int|
                0 <= k < lowered.len() ==> {
                    &&& conjunct_holds(#[trigger] lowered[k], row, order) <==> expr_holds(
                        tests[k],
                        row,
                        order,
                    )
                    &&& lowered[k].column() == column_of(tests[k])
                }
        }),
{
    lemma_list(list, list.len() as int, row, order);
    assert(list.take(list.len() as int) =~= list);
    let tests = list.filter(|e: CompiledExpr| is_test(e));
    let lowered = lowered_exprs(list, list.len() as int);
    assert forall|k: int| 0 <= k < lowered.len() implies {
        &&& conjunct_holds(#[trigger] lowered[k], row, order) <==> expr_holds(tests[k], row, order)
        &&& lowered[k].column() == column_of(tests[k])
    } by {
        assert(says_the_same(lowered[k], tests[k], row, order));
    }
}

/// Skipping loses no row: on a row on which every expression of a list holds, every test
/// handed to the storage layer holds. Of an expression that is no test nothing is asked.
pub proof fn theorem_skipping_safe(
    list: Seq<CompiledExpr>,
    holds: spec_fn(CompiledExpr) -> bool,
    row: spec_fn(Seq<char>) -> PropertyView,
    order: spec_fn(PropertyView, PropertyView) -> Option<int>,
)
    requires
        is_antisymmetric(order),
        forall|e: CompiledExpr| is_test(e) ==> #[trigger] holds(e) == expr_holds(e, row, order),
        forall|i: int| 0 <= i < list.len() ==> holds(#[trigger] list[i]),
    ensures
        ({
            let lowered = lowered_exprs(list, list.len() as int);
            forall|k: int|
                0 <= k < lowered.len() ==> conjunct_holds(#[trigger] lowered[k], row, order)
        }),
{
    broadcast use vstd::seq_lib::group_filter_ensures;

    let tests = list.filter(|e: CompiledExpr| is_test(e));
    let lowered = lowered_exprs(list, list.len() as int);
    theorem_list_lowered(list, row, order);
    assert forall|k: int| 0 <= k < lowered.len() implies conjunct_holds(
        #[trigger] lowered[k],
        row,
        order,
    ) by {
        let e = tests[k];
        assert(tests.contains(e));
        list.lemma_filter_contains_rev(|e: CompiledExpr| is_test(e), e);
        let i = choose|i: int| 0 <= i < list.len() && list[i] == e;
        assert(holds(list[i]));
        assert(is_test(e));
    }
}

proof fn lemma_tested(list: Seq<ConjunctView>, n: int)
    requires
        0 <= n <= list.len(),
    ensures
        tested_columns(list, n).no_duplicates(),
        forall|k: int| 0 <= k < n ==> tested_columns(list, n).contains((#[trigger] list[k]).column()),
        forall|c: int|
            0 <= c < tested_columns(list, n).len() ==> exists|k: int|
                0 <= k < n && (#[trigger] list[k]).column() == #[trigger] tested_columns(list, n)[c],
    decreases n,
{
    if n > 0 {
        lemma_tested(list, n - 1);
        let before = tested_columns(list, n - 1);
        let after = tested_columns(list, n);
        let name = list[n - 1].column();
        if before.contains(name) {
            assert(after == before);
        } else {
            assert(after[before.len() as int] == name);
        }
        assert forall|k: int| 0 <= k < n implies after.contains((#[trigger] list[k]).column()) by {
            if k < n - 1 {
                let c = choose|c: int| 0 <= c < before.len() && before[c] == list[k].column();
                assert(after[c] == list[k].column());
            } else if before.contains(name) {
                let c = choose|c: int| 0 <= c < before.len() && before[c] == name;
                assert(after[c] == name);
            }
        }
        assert forall|c: int| 0 <= c < after.len() implies exists|k: int|
            0 <= k < n && (#[trigger] list[k]).column() == #[trigger] after[c] by {
            if c < before.len() {
                let k = choose|k: int|
                    0 <= k < n - 1 && (#[trigger] list[k]).column() == before[c];
                assert(list[k].column() == after[c]);
            } else {
                assert(list[n - 1].column() == after[c]);
            }
        }
    }
}

/// The columns of a predicate are those that its tests are about, each once.
pub proof fn theorem_tested_columns(list: Seq<ConjunctView>, name: Seq<char>)
    ensures
        tested_columns(list, list.len() as int).no_duplicates(),
        tested_columns(list, list.len() as int).contains(name) <==> exists|k: int|
            0 <= k < list.len() && (#[trigger] list[k]).column() == name,
{
    let columns = tested_columns(list, list.len() as int);
    lemma_tested(list, list.len() as int);
    if columns.contains(name) {
        let c = choose|c: int| 0 <= c < columns.len() && columns[c] == name;
        let k = choose|k: int| 0 <= k < list.len() && (#[trigger] list[k]).column() == columns[c];
        assert(list[k].column() == name);
    }
}

} // verus!
