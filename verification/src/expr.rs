//! Compiled predicate expressions.

use vstd::prelude::*;

use crate::value::PropertyValue;

verus! {

/// Comparison operators of the expression language.
#[derive(Debug, Clone, Copy, PartialEq, Eq, Structural)]
pub enum CompareOp {
    Equal,
    NotEqual,
    Less,
    LessOrEqual,
    Greater,
    GreaterOrEqual,
}

/// A compiled expression tree.
#[derive(Debug)]
pub struct CompiledExpr {
    pub node: CompiledNode,
}

/// The operation at the root of a [`CompiledExpr`].
#[derive(Debug)]
pub enum CompiledNode {
    /// A bare column read.
    Column { name: String, index: usize },
    /// A constant.
    Literal(PropertyValue),
    /// A binary comparison.
    Compare { op: CompareOp, left: Box<CompiledExpr>, right: Box<CompiledExpr> },
    /// `IS NULL`, or `IS NOT NULL` when `negated`.
    IsNull { input: Box<CompiledExpr>, negated: bool },
    /// `IN (literals)`, or `NOT IN (literals)` when `negated`.
    InLiteralSet { input: Box<CompiledExpr>, values: Vec<PropertyValue>, negated: bool },
    /// Conjunction.
    And(Box<CompiledExpr>, Box<CompiledExpr>),
    /// Disjunction.
    Or(Box<CompiledExpr>, Box<CompiledExpr>),
    /// Negation.
    Not(Box<CompiledExpr>),
}

} // verus!
