//! The runtime values of the language.
use vstd::prelude::*;
use crate::number::{number_equal, same_number};

verus! {

/// Handle of an interned text: its index in the interner that issued it.
#[derive(Clone, Copy, Debug, PartialEq, Eq, Structural)]
pub struct StringHandle(pub usize);

/// Identity of a tensor: its index in the graph that owns it.
#[derive(Clone, Copy, Debug, PartialEq, Eq, Structural)]
pub struct TensorRef(pub usize);

/// A runtime value. `Number` holds the binary64 bit pattern.
#[derive(Clone, Copy, Debug, PartialEq, Eq, Structural)]
pub enum ValueType {
    Nil,
    Boolean(bool),
    Number(u64),
    String(StringHandle),
    Identifier(StringHandle),
    Tensor(TensorRef),
}

/// Truthiness: `Nil` and `Boolean(false)` are false, everything else true.
pub open spec fn truthy(v: ValueType) -> bool {
    match v {
        ValueType::Nil => false,
        ValueType::Boolean(b) => b,
        _ => true,
    }
}

/// The language's `==`: values of different variants are unequal; numbers
/// compare as IEEE numbers, texts by handle, tensors by identity.
pub open spec fn equal_values(a: ValueType, b: ValueType) -> bool {
    match (a, b) {
        (ValueType::Nil, ValueType::Nil) => true,
        (ValueType::Boolean(x), ValueType::Boolean(y)) => x == y,
        (ValueType::Number(x), ValueType::Number(y)) => same_number(x, y),
        (ValueType::String(x), ValueType::String(y)) => x == y,
        (ValueType::Identifier(x), ValueType::Identifier(y)) => x == y,
        (ValueType::Tensor(x), ValueType::Tensor(y)) => x == y,
        _ => false,
    }
}

impl ValueType {
    pub fn is_truthy(&self) -> (r: bool)
        ensures
            r == truthy(*self),
    {
        match self {
            ValueType::Nil => false,
            ValueType::Boolean(b) => *b,
            _ => true,
        }
    }

    /// Logical not: a `Boolean` that holds exactly when the value is falsey.
    pub fn not(&self) -> (r: ValueType)
        ensures
            r == ValueType::Boolean(!truthy(*self)),
    {
        ValueType::Boolean(!self.is_truthy())
    }

    pub fn equals(&self, other: &ValueType) -> (r: bool)
        ensures
            r == equal_values(*self, *other),
    {
        match (self, other) {
            (ValueType::Nil, ValueType::Nil) => true,
            (ValueType::Boolean(x), ValueType::Boolean(y)) => *x == *y,
            (ValueType::Number(x), ValueType::Number(y)) => number_equal(*x, *y),
            (ValueType::String(x), ValueType::String(y)) => x.0 == y.0,
            (ValueType::Identifier(x), ValueType::Identifier(y)) => x.0 == y.0,
            (ValueType::Tensor(x), ValueType::Tensor(y)) => x.0 == y.0,
            _ => false,
        }
    }
}

/// Only `Nil` and `Boolean(false)` are falsey: their negation is true, and
/// the negation of every number, text, identifier and tensor is false.
pub proof fn lemma_truthiness(v: ValueType)
    ensures
        !truthy(v) <==> v == ValueType::Nil || v == ValueType::Boolean(false),
        v is Number || v is String || v is Identifier || v is Tensor ==> truthy(v),
{
}

} // verus!
