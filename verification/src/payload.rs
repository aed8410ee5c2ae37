use crate::heap::Heap;
use crate::heap::ObjectKind;
use crate::heap::Value;
use vstd::prelude::*;

verus! {

/// The structural kind of a heap value.
#[derive(Clone, Copy, Debug, PartialEq, Eq, Structural)]
pub enum ValueType {
    Null,
    Bool,
    Number,
    String,
    Array,
    ArrayBuffer,
    ArrayBufferView,
    Object,
}

impl ValueType {
    /// The structural kind of `v`. The missing sentinel counts as null; a native map
    /// and a boxed string count as objects. A big integer has no kind, and neither
    /// has a symbol.
    pub open spec fn of(scope: &Heap, v: Value) -> ValueType
        recommends
            !v.kindless(),
    {
        match v {
            Value::Bool(_) => ValueType::Bool,
            Value::Number(_) => ValueType::Number,
            Value::String(_) => ValueType::String,
            Value::Object(o) => match scope.objects@[o as int].kind {
                ObjectKind::Array => ValueType::Array,
                ObjectKind::ArrayBuffer => ValueType::ArrayBuffer,
                ObjectKind::ArrayBufferView => ValueType::ArrayBufferView,
                _ => ValueType::Object,
            },
            _ => ValueType::Null,
        }
    }

    /// Classifies a heap value.
    pub fn from_v8(scope: &Heap, v: Value) -> (kind: ValueType)
        requires
            scope.valid(v),
            !v.kindless(),
        ensures
            kind == ValueType::of(scope, v),
    {
        match v {
            Value::Bool(_) => ValueType::Bool,
            Value::Number(_) => ValueType::Number,
            Value::String(_) => ValueType::String,
            Value::Object(o) => match scope.objects[o].kind {
                ObjectKind::Array => ValueType::Array,
                ObjectKind::ArrayBuffer => ValueType::ArrayBuffer,
                ObjectKind::ArrayBufferView => ValueType::ArrayBufferView,
                _ => ValueType::Object,
            },
            _ => ValueType::Null,
        }
    }
}

} // verus!
