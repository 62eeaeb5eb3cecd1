//! Scalar values and identifiers that operators exchange.

use vstd::prelude::*;
use vstd::string::*;

use crate::text::{decimal, decimal_text, join2, number_of, theorem_decimal};

verus! {

/// A scalar literal. Floating-point numbers are carried by their IEEE-754 bits.
#[derive(Debug)]
pub enum PropertyValue {
    Null,
    Bool(bool),
    Int(i64),
    Float(u64),
    String(String),
    Timestamp(i64),
}

/// The value of an entity-key column.
#[derive(Debug, PartialEq, Eq)]
pub enum EntityId {
    String(String),
    Int(i64),
}

/// The content of a [`PropertyValue`].
pub enum PropertyView {
    Null,
    Bool(bool),
    Int(i64),
    Float(u64),
    String(Seq<char>),
    Timestamp(i64),
}

impl View for PropertyValue {
    type V = PropertyView;

    open spec fn view(&self) -> PropertyView {
        match self {
            PropertyValue::Null => PropertyView::Null,
            PropertyValue::Bool(v) => PropertyView::Bool(*v),
            PropertyValue::Int(v) => PropertyView::Int(*v),
            PropertyValue::Float(v) => PropertyView::Float(*v),
            PropertyValue::String(s) => PropertyView::String(s@),
            PropertyValue::Timestamp(v) => PropertyView::Timestamp(*v),
        }
    }
}

impl PropertyValue {
    /// A copy of this value.
    pub fn duplicate(&self) -> (r: PropertyValue)
        ensures
            r == *self,
    {
        match self {
            PropertyValue::Null => PropertyValue::Null,
            PropertyValue::Bool(v) => PropertyValue::Bool(*v),
            PropertyValue::Int(v) => PropertyValue::Int(*v),
            PropertyValue::Float(v) => PropertyValue::Float(*v),
            PropertyValue::String(s) => PropertyValue::String(s.clone()),
            PropertyValue::Timestamp(v) => PropertyValue::Timestamp(*v),
        }
    }
}

/// The decimal notation of an integer.
pub open spec fn signed_decimal(n: int) -> Seq<char> {
    if n < 0 {
        "-"@ + decimal((-n) as nat)
    } else {
        decimal(n as nat)
    }
}

impl EntityId {
    /// The id as text.
    pub open spec fn text(&self) -> Seq<char> {
        match self {
            EntityId::String(s) => s@,
            EntityId::Int(n) => signed_decimal(*n as int),
        }
    }

    /// The id as text.
    pub fn to_text(&self) -> (r: String)
        ensures
            r@ == self.text(),
    {
        match self {
            EntityId::String(s) => s.clone(),
            EntityId::Int(n) => {
                if *n >= 0 {
                    decimal_text(*n as u64)
                } else {
                    let size: u64 = (-(*n as i128)) as u64;
                    join2("-", decimal_text(size).as_str())
                }
            },
        }
    }

    /// A copy of this id.
    pub fn duplicate(&self) -> (r: EntityId)
        ensures
            r == *self,
    {
        match self {
            EntityId::String(s) => EntityId::String(s.clone()),
            EntityId::Int(n) => EntityId::Int(*n),
        }
    }
}

/// An integer id is shown in decimal digits, after a minus sign where it is negative, and
/// the digits stand for its size and do not begin with a zero but for the id 0. A text id
/// is shown as it is.
pub proof fn theorem_id_shown(id: EntityId)
    ensures
        match id {
            EntityId::String(s) => id.text() == s@,
            EntityId::Int(n) => {
                let start: int = if n < 0 {
                    1
                } else {
                    0
                };
                let digits = id.text().skip(start);
                &&& n < 0 ==> id.text().len() > 0 && id.text()[0] == '-'
                &&& digits.len() > 0
                &&& forall|i: int| 0 <= i < digits.len() ==> '0' <= #[trigger] digits[i] <= '9'
                &&& number_of(digits) == (if n < 0 {
                    -n
                } else {
                    n as int
                })
                &&& n != 0 ==> digits[0] != '0'
                &&& n == 0 ==> digits.len() == 1
            },
        },
{
    if let EntityId::Int(n) = id {
        reveal_strlit("-");
        if n < 0 {
            let size = (-n) as nat;
            theorem_decimal(size);
            assert(id.text().skip(1) =~= decimal(size));
        } else {
            theorem_decimal(n as nat);
            assert(id.text().skip(0) =~= decimal(n as nat));
        }
    }
}

} // verus!
