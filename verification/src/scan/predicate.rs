//! Predicates that the storage layer can use to skip row groups.
//!
//! Of the predicates pushed into a scan, those that compare a column with a
//! constant, test a column for null, or look a column up in a list of constants
//! are handed to the storage layer. It uses them only to skip what cannot match,
//! so leaving one out is safe.

use vstd::prelude::*;

use crate::expr::{CompareOp, CompiledExpr, CompiledNode};
use crate::text::{text_in, text_views};
use crate::value::{PropertyValue, PropertyView};

verus! {

/// Which side of a bound a value lies on.
#[derive(Debug, Clone, Copy, PartialEq, Eq, Structural)]
pub enum RangeOp {
    Lt,
    Le,
    Gt,
    Ge,
}

/// A test on one column.
#[derive(Debug)]
pub enum ScanConjunct {
    Equal { column: String, value: PropertyValue },
    NotEqual { column: String, value: PropertyValue },
    Range { column: String, op: RangeOp, value: PropertyValue },
    IsNull { column: String },
    IsNotNull { column: String },
    InSet { column: String, values: Vec<PropertyValue> },
}

/// The content of a [`ScanConjunct`].
pub enum ConjunctView {
    Equal { column: Seq<char>, value: PropertyView },
    NotEqual { column: Seq<char>, value: PropertyView },
    Range { column: Seq<char>, op: RangeOp, value: PropertyView },
    IsNull { column: Seq<char> },
    IsNotNull { column: Seq<char> },
    InSet { column: Seq<char>, values: Seq<PropertyView> },
}

/// The contents of a list of constants.
pub open spec fn property_views(values: Seq<PropertyValue>) -> Seq<PropertyView> {
    Seq::new(values.len(), |i: int| values[i]@)
}

impl View for ScanConjunct {
    type V = ConjunctView;

    open spec fn view(&self) -> ConjunctView {
        match self {
            ScanConjunct::Equal { column, value } => ConjunctView::Equal {
                column: column@,
                value: value@,
            },
            ScanConjunct::NotEqual { column, value } => ConjunctView::NotEqual {
                column: column@,
                value: value@,
            },
            ScanConjunct::Range { column, op, value } => ConjunctView::Range {
                column: column@,
                op: *op,
                value: value@,
            },
            ScanConjunct::IsNull { column } => ConjunctView::IsNull { column: column@ },
            ScanConjunct::IsNotNull { column } => ConjunctView::IsNotNull { column: column@ },
            ScanConjunct::InSet { column, values } => ConjunctView::InSet {
                column: column@,
                values: property_views(values@),
            },
        }
    }
}

/// The contents of a list of tests.
pub open spec fn conjunct_views(list: Seq<ScanConjunct>) -> Seq<ConjunctView> {
    Seq::new(list.len(), |i: int| list[i]@)
}

impl ConjunctView {
    /// The column that is tested.
    pub open spec fn column(self) -> Seq<char> {
        match self {
            ConjunctView::Equal { column, .. } => column,
            ConjunctView::NotEqual { column, .. } => column,
            ConjunctView::Range { column, .. } => column,
            ConjunctView::IsNull { column } => column,
            ConjunctView::IsNotNull { column } => column,
            ConjunctView::InSet { column, .. } => column,
        }
    }
}

impl ScanConjunct {
    /// The column that is tested.
    pub fn column(&self) -> (r: &String)
        ensures
            r@ == self@.column(),
    {
        match self {
            ScanConjunct::Equal { column, .. } => column,
            ScanConjunct::NotEqual { column, .. } => column,
            ScanConjunct::Range { column, .. } => column,
            ScanConjunct::IsNull { column } => column,
            ScanConjunct::IsNotNull { column } => column,
            ScanConjunct::InSet { column, .. } => column,
        }
    }
}

/// The columns of the first `n` tests, each once, in the order in which they come
/// up.
pub open spec fn tested_columns(list: Seq<ConjunctView>, n: int) -> Seq<Seq<char>>
    decreases n,
{
    if n <= 0 {
        Seq::empty()
    } else {
        let before = tested_columns(list, n - 1);
        if before.contains(list[n - 1].column()) {
            before
        } else {
            before.push(list[n - 1].column())
        }
    }
}

/// Tests that all have to hold.
#[derive(Debug)]
pub struct ScanPredicate {
    pub conjuncts: Vec<ScanConjunct>,
    pub columns: Vec<String>,
}

impl ScanPredicate {
    /// The columns are those of the tests.
    pub open spec fn wf(&self) -> bool {
        text_views(self.columns@) == tested_columns(
            conjunct_views(self.conjuncts@),
            self.conjuncts@.len() as int,
        )
    }

    /// A predicate of the given tests.
    pub fn new(conjuncts: Vec<ScanConjunct>) -> (r: Self)
        ensures
            r.wf(),
            r.conjuncts@ == conjuncts@,
    {
        let ghost list = conjunct_views(conjuncts@);
        let mut columns: Vec<String> = Vec::new();
        let mut i: usize = 0;
        assert(text_views(columns@) =~= tested_columns(list, 0));
        while i < conjuncts.len()
            invariant
                i <= conjuncts@.len(),
                list == conjunct_views(conjuncts@),
                text_views(columns@) == tested_columns(list, i as int),
            decreases conjuncts@.len() - i,
        {
            let column: &String = conjuncts[i].column();
            assert(list[i as int] == conjuncts@[i as int]@);
            if !text_in(&columns, column.as_str()) {
                let ghost before = text_views(columns@);
                columns.push(column.clone());
                assert(text_views(columns@) =~= before.push(column@));
            }
            i = i + 1;
        }
        ScanPredicate { conjuncts, columns }
    }

    /// The columns of the tests, each once, in the order in which they come up.
    pub fn referenced_columns(&self) -> (r: &[String])
        ensures
            r@ == self.columns@,
    {
        self.columns.as_slice()
    }
}

/// The operator that says the same with its sides exchanged.
pub open spec fn flipped(op: CompareOp) -> CompareOp {
    match op {
        CompareOp::Equal => CompareOp::Equal,
        CompareOp::NotEqual => CompareOp::NotEqual,
        CompareOp::Less => CompareOp::Greater,
        CompareOp::LessOrEqual => CompareOp::GreaterOrEqual,
        CompareOp::Greater => CompareOp::Less,
        CompareOp::GreaterOrEqual => CompareOp::LessOrEqual,
    }
}

/// The test that compares a column with a constant.
pub open spec fn comparison(op: CompareOp, column: Seq<char>, value: PropertyView) -> ConjunctView {
    match op {
        CompareOp::Equal => ConjunctView::Equal { column, value },
        CompareOp::NotEqual => ConjunctView::NotEqual { column, value },
        CompareOp::Less => ConjunctView::Range { column, op: RangeOp::Lt, value },
        CompareOp::LessOrEqual => ConjunctView::Range { column, op: RangeOp::Le, value },
        CompareOp::Greater => ConjunctView::Range { column, op: RangeOp::Gt, value },
        CompareOp::GreaterOrEqual => ConjunctView::Range { column, op: RangeOp::Ge, value },
    }
}

/// The test that a comparison stands for: one side is a column, the other a
/// constant that is not null.
pub open spec fn lowered_comparison(
    op: CompareOp,
    left: CompiledNode,
    right: CompiledNode,
) -> Option<ConjunctView> {
    match (left, right) {
        (CompiledNode::Column { name, .. }, CompiledNode::Literal(v)) => if v@ is Null {
            None
        } else {
            Some(comparison(op, name@, v@))
        },
        (CompiledNode::Literal(v), CompiledNode::Column { name, .. }) => if v@ is Null {
            None
        } else {
            Some(comparison(flipped(op), name@, v@))
        },
        _ => None,
    }
}

/// The test that an expression stands for, if it is one that the storage layer
/// knows.
pub open spec fn lowered_expr(e: CompiledExpr) -> Option<ConjunctView> {
    match e.node {
        CompiledNode::Compare { op, left, right } => lowered_comparison(
            op,
            left.node,
            right.node,
        ),
        CompiledNode::IsNull { input, negated } => match input.node {
            CompiledNode::Column { name, .. } => Some(
                if negated {
                    ConjunctView::IsNotNull { column: name@ }
                } else {
                    ConjunctView::IsNull { column: name@ }
                },
            ),
            _ => None,
        },
        CompiledNode::InLiteralSet { input, values, negated } => match input.node {
            CompiledNode::Column { name, .. } => if negated || values@.len() == 0 {
                None
            } else {
                Some(ConjunctView::InSet { column: name@, values: property_views(values@) })
            },
            _ => None,
        },
        _ => None,
    }
}

/// The tests that the first `n` of some expressions stand for.
pub open spec fn lowered_exprs(list: Seq<CompiledExpr>, n: int) -> Seq<ConjunctView>
    decreases n,
{
    if n <= 0 {
        Seq::empty()
    } else {
        let before = lowered_exprs(list, n - 1);
        match lowered_expr(list[n - 1]) {
            Some(c) => before.push(c),
            None => before,
        }
    }
}

fn copy_properties(values: &Vec<PropertyValue>) -> (r: Vec<PropertyValue>)
    ensures
        property_views(r@) == property_views(values@),
{
    let mut out: Vec<PropertyValue> = Vec::new();
    let mut i: usize = 0;
    while i < values.len()
        invariant
            i <= values@.len(),
            out@.len() == i,
            forall|j: int| 0 <= j < i ==> #[trigger] out@[j] == values@[j],
        decreases values@.len() - i,
    {
        out.push(values[i].duplicate());
        i = i + 1;
    }
    assert(out@ =~= values@);
    out
}

/// The operator that says the same with its sides exchanged.
fn flip_compare(op: CompareOp) -> (r: CompareOp)
    ensures
        r == flipped(op),
{
    match op {
        CompareOp::Equal => CompareOp::Equal,
        CompareOp::NotEqual => CompareOp::NotEqual,
        CompareOp::Less => CompareOp::Greater,
        CompareOp::LessOrEqual => CompareOp::GreaterOrEqual,
        CompareOp::Greater => CompareOp::Less,
        CompareOp::GreaterOrEqual => CompareOp::LessOrEqual,
    }
}

/// The test that compares a column with a constant.
fn compare_to_conjunct(op: CompareOp, column: String, value: PropertyValue) -> (r: ScanConjunct)
    ensures
        r@ == comparison(op, column@, value@),
{
    match op {
        CompareOp::Equal => ScanConjunct::Equal { column, value },
        CompareOp::NotEqual => ScanConjunct::NotEqual { column, value },
        CompareOp::Less => ScanConjunct::Range { column, op: RangeOp::Lt, value },
        CompareOp::LessOrEqual => ScanConjunct::Range { column, op: RangeOp::Le, value },
        CompareOp::Greater => ScanConjunct::Range { column, op: RangeOp::Gt, value },
        CompareOp::GreaterOrEqual => ScanConjunct::Range { column, op: RangeOp::Ge, value },
    }
}

/// The name of the column that an expression reads, if it does nothing else.
fn column_name(expr: &CompiledExpr) -> (r: Option<String>)
    ensures
        match (r, expr.node) {
            (Some(s), CompiledNode::Column { name, .. }) => s@ == name@,
            (Some(_), _) => false,
            (None, node) => !(node is Column),
        },
{
    match &expr.node {
        CompiledNode::Column { name, .. } => Some(name.clone()),
        _ => None,
    }
}

/// The content of an optional test.
pub open spec fn optional_view(c: Option<ScanConjunct>) -> Option<ConjunctView> {
    match c {
        Some(v) => Some(v@),
        None => None,
    }
}

/// The test that a comparison stands for.
fn lower_compare(op: CompareOp, left: &CompiledExpr, right: &CompiledExpr) -> (r: Option<
    ScanConjunct,
>)
    ensures
        optional_view(r) == lowered_comparison(op, left.node, right.node),
{
    match (&left.node, &right.node) {
        (CompiledNode::Column { name, .. }, CompiledNode::Literal(v)) => match v {
            PropertyValue::Null => None,
            _ => Some(compare_to_conjunct(op, name.clone(), v.duplicate())),
        },
        (CompiledNode::Literal(v), CompiledNode::Column { name, .. }) => match v {
            PropertyValue::Null => None,
            _ => Some(compare_to_conjunct(flip_compare(op), name.clone(), v.duplicate())),
        },
        _ => None,
    }
}

/// The test that an expression stands for, if it is one that the storage layer
/// knows.
pub fn lower_to_conjunct(expr: &CompiledExpr) -> (r: Option<ScanConjunct>)
    ensures
        optional_view(r) == lowered_expr(*expr),
{
    match &expr.node {
        CompiledNode::Compare { op, left, right } => lower_compare(*op, left, right),
        CompiledNode::IsNull { input, negated } => match column_name(input) {
            Some(column) => Some(
                if *negated {
                    ScanConjunct::IsNotNull { column }
                } else {
                    ScanConjunct::IsNull { column }
                },
            ),
            None => None,
        },
        CompiledNode::InLiteralSet { input, values, negated } => {
            if *negated || values.len() == 0 {
                return None;
            }
            match column_name(input) {
                Some(column) => Some(
                    ScanConjunct::InSet { column, values: copy_properties(values) },
                ),
                None => None,
            }
        },
        _ => None,
    }
}

/// The tests that some expressions stand for, in order. Expressions that stand
/// for none are left out.
pub fn lower_compiled_predicates(predicates: &Vec<CompiledExpr>) -> (r: Vec<ScanConjunct>)
    ensures
        conjunct_views(r@) == lowered_exprs(predicates@, predicates@.len() as int),
{
    let mut conjuncts: Vec<ScanConjunct> = Vec::new();
    let mut i: usize = 0;
    assert(conjunct_views(conjuncts@) =~= lowered_exprs(predicates@, 0));
    while i < predicates.len()
        invariant
            i <= predicates@.len(),
            conjunct_views(conjuncts@) == lowered_exprs(predicates@, i as int),
        decreases predicates@.len() - i,
    {
        match lower_to_conjunct(&predicates[i]) {
            Some(c) => {
                let ghost before = conjunct_views(conjuncts@);
                conjuncts.push(c);
                assert(conjunct_views(conjuncts@) =~= before.push(c@));
            },
            None => {},
        }
        i = i + 1;
    }
    conjuncts
}

/// The predicate for the storage layer, or `None` where no expression stands for
/// a test.
pub fn build_scan_predicate(predicates: &Vec<CompiledExpr>) -> (r: Option<ScanPredicate>)
    ensures
        predicate_of(r) == lowered_exprs(predicates@, predicates@.len() as int),
        r is Some <==> lowered_exprs(predicates@, predicates@.len() as int).len() > 0,
        r matches Some(p) ==> p.wf(),
{
    let conjuncts = lower_compiled_predicates(predicates);
    assert(conjunct_views(conjuncts@).len() == conjuncts@.len());
    if conjuncts.len() == 0 {
        assert(conjunct_views(conjuncts@) =~= Seq::empty());
        None
    } else {
        Some(ScanPredicate::new(conjuncts))
    }
}

/// The tests of an optional predicate.
pub open spec fn predicate_of(p: Option<ScanPredicate>) -> Seq<ConjunctView> {
    match p {
        Some(p) => conjunct_views(p.conjuncts@),
        None => Seq::empty(),
    }
}

/// Exchanging the sides of a comparison twice changes nothing.
pub proof fn theorem_flip_twice(op: CompareOp)
    ensures
        flipped(flipped(op)) == op,
{
}

/// It makes no difference on which side of a comparison the constant stands, if
/// the operator is flipped.
pub proof fn theorem_sides(op: CompareOp, left: CompiledNode, right: CompiledNode)
    ensures
        lowered_comparison(op, left, right) == lowered_comparison(flipped(op), right, left),
{
}

/// What a simple expression is on a row, given the values of the columns.
pub open spec fn simple_value(node: CompiledNode, row: spec_fn(Seq<char>) -> PropertyView) -> Option<
    PropertyView,
> {
    match node {
        CompiledNode::Column { name, .. } => Some(row(name@)),
        CompiledNode::Literal(v) => Some(v@),
        _ => None,
    }
}

/// Whether a comparison holds of two values, where `order` is negative, zero or
/// positive as the first comes before, is, or comes after the second, and `None`
/// where they cannot be compared. A comparison with null does not hold.
pub open spec fn compares(
    op: CompareOp,
    a: PropertyView,
    b: PropertyView,
    order: spec_fn(PropertyView, PropertyView) -> Option<int>,
) -> bool {
    match order(a, b) {
        Some(o) => !(a is Null) && !(b is Null) && match op {
            CompareOp::Equal => o == 0,
            CompareOp::NotEqual => o != 0,
            CompareOp::Less => o < 0,
            CompareOp::LessOrEqual => o <= 0,
            CompareOp::Greater => o > 0,
            CompareOp::GreaterOrEqual => o >= 0,
        },
        None => false,
    }
}

/// Whether an expression of one of the known shapes holds on a row.
pub open spec fn expr_holds(
    e: CompiledExpr,
    row: spec_fn(Seq<char>) -> PropertyView,
    order: spec_fn(PropertyView, PropertyView) -> Option<int>,
) -> bool {
    match e.node {
        CompiledNode::Compare { op, left, right } => match (
            simple_value(left.node, row),
            simple_value(right.node, row),
        ) {
            (Some(a), Some(b)) => compares(op, a, b, order),
            _ => false,
        },
        CompiledNode::IsNull { input, negated } => match simple_value(input.node, row) {
            Some(v) => (v is Null) != negated,
            None => false,
        },
        CompiledNode::InLiteralSet { input, values, negated } => match simple_value(
            input.node,
            row,
        ) {
            Some(v) => !negated && exists|i: int|
                0 <= i < values@.len() && compares(
                    CompareOp::Equal,
                    v,
                    #[trigger] property_views(values@)[i],
                    order,
                ),
            None => false,
        },
        _ => false,
    }
}

/// Whether a test holds on a row.
pub open spec fn conjunct_holds(
    c: ConjunctView,
    row: spec_fn(Seq<char>) -> PropertyView,
    order: spec_fn(PropertyView, PropertyView) -> Option<int>,
) -> bool {
    match c {
        ConjunctView::Equal { column, value } => compares(
            CompareOp::Equal,
            row(column),
            value,
            order,
        ),
        ConjunctView::NotEqual { column, value } => compares(
            CompareOp::NotEqual,
            row(column),
            value,
            order,
        ),
        ConjunctView::Range { column, op, value } => compares(
            match op {
                RangeOp::Lt => CompareOp::Less,
                RangeOp::Le => CompareOp::LessOrEqual,
                RangeOp::Gt => CompareOp::Greater,
                RangeOp::Ge => CompareOp::GreaterOrEqual,
            },
            row(column),
            value,
            order,
        ),
        ConjunctView::IsNull { column } => row(column) is Null,
        ConjunctView::IsNotNull { column } => !(row(column) is Null),
        ConjunctView::InSet { column, values } => exists|i: int|
            0 <= i < values.len() && compares(
                CompareOp::Equal,
                row(column),
                #[trigger] values[i],
                order,
            ),
    }
}

proof fn lemma_comparison_holds(
    op: CompareOp,
    column: Seq<char>,
    value: PropertyView,
    row: spec_fn(Seq<char>) -> PropertyView,
    order: spec_fn(PropertyView, PropertyView) -> Option<int>,
)
    ensures
        conjunct_holds(comparison(op, column, value), row, order) == compares(
            op,
            row(column),
            value,
            order,
        ),
{
}

/// The test that an expression is lowered to holds on exactly the rows on which
/// the expression holds, so skipping by it loses no row.
pub proof fn theorem_lowering_exact(
    e: CompiledExpr,
    row: spec_fn(Seq<char>) -> PropertyView,
    order: spec_fn(PropertyView, PropertyView) -> Option<int>,
)
    requires
        lowered_expr(e) is Some,
        forall|a: PropertyView, b: PropertyView|
            match (#[trigger] order(a, b), order(b, a)) {
                (Some(x), Some(y)) => x == -y,
                (None, None) => true,
                _ => false,
            },
    ensures
        conjunct_holds(lowered_expr(e)->0, row, order) == expr_holds(e, row, order),
{
    match e.node {
        CompiledNode::Compare { op, left, right } => {
            match (left.node, right.node) {
                (CompiledNode::Column { name, .. }, CompiledNode::Literal(v)) => {
                    lemma_comparison_holds(op, name@, v@, row, order);
                    assert(lowered_expr(e) == Some(comparison(op, name@, v@)));
                    assert(expr_holds(e, row, order) == compares(op, row(name@), v@, order));
                },
                (CompiledNode::Literal(v), CompiledNode::Column { name, .. }) => {
                    let a = v@;
                    let b = row(name@);
                    lemma_comparison_holds(flipped(op), name@, a, row, order);
                    assert(lowered_expr(e) == Some(comparison(flipped(op), name@, a)));
                    assert(expr_holds(e, row, order) == compares(op, a, b, order));
                    assert(match (order(a, b), order(b, a)) {
                        (Some(x), Some(y)) => x == -y,
                        (None, None) => true,
                        _ => false,
                    });
                    assert(compares(op, a, b, order) == compares(flipped(op), b, a, order));
                },
                _ => {},
            }
        },
        CompiledNode::InLiteralSet { input, values, negated } => {
            assert(conjunct_holds(lowered_expr(e)->0, row, order) == expr_holds(e, row, order));
        },
        _ => {},
    }
}

} // verus!
