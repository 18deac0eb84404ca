//! Building single-node trees from plain values.
use vstd::prelude::*;
use crate::object::{Object, Value};
use crate::types::Decimal;

verus! {

/// A node under construction, turned into an [`Object`] by `build`.
pub struct Builder {
    pub obj: Object,
}

impl Builder {
    /// The node built.
    pub fn build(self) -> (r: Object)
        ensures
            r == self.obj,
    {
        self.obj
    }
}

/// A node with no key and priority 0 holding `value`.
pub open spec fn leaf(value: Value) -> Object {
    Object { key: None, priority: 0, value }
}

impl From<i64> for Builder {
    fn from(val: i64) -> (r: Builder) {
        Builder { obj: Object::new(Value::Int(val)) }
    }
}

impl vstd::std_specs::convert::FromSpecImpl<i64> for Builder {
    open spec fn obeys_from_spec() -> bool {
        true
    }

    open spec fn from_spec(val: i64) -> Builder {
        Builder { obj: leaf(Value::Int(val)) }
    }
}

impl From<Decimal> for Builder {
    fn from(val: Decimal) -> (r: Builder) {
        Builder { obj: Object::new(Value::Float(val)) }
    }
}

impl vstd::std_specs::convert::FromSpecImpl<Decimal> for Builder {
    open spec fn obeys_from_spec() -> bool {
        true
    }

    open spec fn from_spec(val: Decimal) -> Builder {
        Builder { obj: leaf(Value::Float(val)) }
    }
}

impl From<bool> for Builder {
    fn from(val: bool) -> (r: Builder) {
        Builder { obj: Object::new(Value::Boolean(val)) }
    }
}

impl vstd::std_specs::convert::FromSpecImpl<bool> for Builder {
    open spec fn obeys_from_spec() -> bool {
        true
    }

    open spec fn from_spec(val: bool) -> Builder {
        Builder { obj: leaf(Value::Boolean(val)) }
    }
}

impl From<String> for Builder {
    fn from(val: String) -> (r: Builder) {
        Builder { obj: Object::new(Value::String(val)) }
    }
}

impl vstd::std_specs::convert::FromSpecImpl<String> for Builder {
    open spec fn obeys_from_spec() -> bool {
        true
    }

    open spec fn from_spec(val: String) -> Builder {
        Builder { obj: leaf(Value::String(val)) }
    }
}

impl<'a> From<&'a str> for Builder {
    fn from(val: &'a str) -> (r: Builder)
        ensures
            r.obj.key is None,
            r.obj.priority == 0,
            r.obj.value matches Value::String(x) && x@ == val@,
    {
        Builder { obj: Object::new(Value::String(val.to_owned())) }
    }
}

/// The conversion's result is stated on `from` itself: what a `&str` holds
/// cannot be turned into a `String` in a specification.
impl<'a> vstd::std_specs::convert::FromSpecImpl<&'a str> for Builder {
    open spec fn obeys_from_spec() -> bool {
        false
    }

    open spec fn from_spec(val: &'a str) -> Builder {
        Builder { obj: leaf(Value::Null) }
    }
}

impl From<Builder> for Object {
    fn from(b: Builder) -> (r: Object) {
        b.obj
    }
}

impl vstd::std_specs::convert::FromSpecImpl<Builder> for Object {
    open spec fn obeys_from_spec() -> bool {
        true
    }

    open spec fn from_spec(b: Builder) -> Object {
        b.obj
    }
}

impl From<i64> for Object {
    fn from(val: i64) -> (r: Object) {
        Object::new(Value::Int(val))
    }
}

impl vstd::std_specs::convert::FromSpecImpl<i64> for Object {
    open spec fn obeys_from_spec() -> bool {
        true
    }

    open spec fn from_spec(val: i64) -> Object {
        leaf(Value::Int(val))
    }
}

impl From<Decimal> for Object {
    fn from(val: Decimal) -> (r: Object) {
        Object::new(Value::Float(val))
    }
}

impl vstd::std_specs::convert::FromSpecImpl<Decimal> for Object {
    open spec fn obeys_from_spec() -> bool {
        true
    }

    open spec fn from_spec(val: Decimal) -> Object {
        leaf(Value::Float(val))
    }
}

impl From<bool> for Object {
    fn from(val: bool) -> (r: Object) {
        Object::new(Value::Boolean(val))
    }
}

impl vstd::std_specs::convert::FromSpecImpl<bool> for Object {
    open spec fn obeys_from_spec() -> bool {
        true
    }

    open spec fn from_spec(val: bool) -> Object {
        leaf(Value::Boolean(val))
    }
}

impl From<String> for Object {
    fn from(val: String) -> (r: Object) {
        Object::new(Value::String(val))
    }
}

impl vstd::std_specs::convert::FromSpecImpl<String> for Object {
    open spec fn obeys_from_spec() -> bool {
        true
    }

    open spec fn from_spec(val: String) -> Object {
        leaf(Value::String(val))
    }
}

impl<'a> From<&'a str> for Object {
    fn from(val: &'a str) -> (r: Object)
        ensures
            r.key is None,
            r.priority == 0,
            r.value matches Value::String(x) && x@ == val@,
    {
        Object::new(Value::String(val.to_owned()))
    }
}

/// The conversion's result is stated on `from` itself: what a `&str` holds
/// cannot be turned into a `String` in a specification.
impl<'a> vstd::std_specs::convert::FromSpecImpl<&'a str> for Object {
    open spec fn obeys_from_spec() -> bool {
        false
    }

    open spec fn from_spec(val: &'a str) -> Object {
        leaf(Value::Null)
    }
}

} // verus!
