//! The structured data model of fetched payloads: a recursive
//! variant over scalars, sequences and mappings.  Mappings keep
//! their own entry order and are never re-sorted; numbers carry
//! their literal text.

use vstd::prelude::*;

verus! {

/// A fetched value.
pub enum Value {
    Null,
    Bool(bool),
    Number(String),
    Text(String),
    Array(Vec<Value>),
    Object(Vec<(String, Value)>),
}

impl Value {
    /// A scalar, as opposed to an array or an object.
    pub open spec fn spec_is_primitive(&self) -> bool {
        match self {
            Value::Array(_) => false,
            Value::Object(_) => false,
            _ => true,
        }
    }

    pub fn is_primitive(&self) -> (r: bool)
        ensures
            r == self.spec_is_primitive(),
    {
        match self {
            Value::Array(_) => false,
            Value::Object(_) => false,
            _ => true,
        }
    }
}

} // verus!
