//! The payload type for node values.
//!
//! Node state is heterogeneous in principle; the store partitions it at
//! compile time into the closed set of payload shapes the engine can
//! compute with: integers, booleans and strings.

use vstd::prelude::*;

verus! {

/// A value held (or produced) by a node.
#[derive(Debug, PartialEq)]
pub enum Value {
    Int(i64),
    Bool(bool),
    Str(String),
}

/// The mathematical shape of a [`Value`]: integers are unbounded,
/// strings are sequences of characters.
pub enum ValueView {
    VInt(int),
    VBool(bool),
    VStr(Seq<char>),
}

impl View for Value {
    type V = ValueView;

    open spec fn view(&self) -> ValueView {
        match self {
            Value::Int(i) => ValueView::VInt(*i as int),
            Value::Bool(b) => ValueView::VBool(*b),
            Value::Str(s) => ValueView::VStr(s@),
        }
    }
}

impl Value {
    /// Structural equality of two values, decided at the level of their views.
    pub fn value_eq(&self, other: &Value) -> (r: bool)
        ensures
            r == (self@ == other@),
    {
        match (self, other) {
            (Value::Int(a), Value::Int(b)) => a == b,
            (Value::Bool(a), Value::Bool(b)) => a == b,
            (Value::Str(a), Value::Str(b)) => a.eq(b),
            _ => false,
        }
    }
}

} // verus!
