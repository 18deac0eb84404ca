//! The kinds of value a document node can hold, and the exact decimal
//! numbers that stand for floating-point and time values.
use vstd::prelude::*;

verus! {

/// The kind of value held by a node.
#[derive(Debug, PartialEq, Eq, Copy, Clone, Structural)]
pub enum Type {
    Object,
    Array,
    Int,
    Float,
    String,
    Boolean,
    Time,
    UserData,
    Null,
}

/// An exact decimal number: `mantissa * 10^exponent`.
///
/// Fractional values (floats, durations in seconds) are kept in this form so
/// that parsing and emitting never round.
#[derive(Debug, PartialEq, Eq, Copy, Clone, Structural)]
pub struct Decimal {
    pub mantissa: i64,
    pub exponent: i32,
}

impl Decimal {
    /// The decimal `mantissa * 10^exponent`.
    pub fn new(mantissa: i64, exponent: i32) -> (r: Decimal)
        ensures
            r.mantissa == mantissa,
            r.exponent == exponent,
    {
        Decimal { mantissa, exponent }
    }
}

/// Value kinds as numbered codes, `UCL_OBJECT` first and `UCL_NULL` last.
#[derive(Debug, PartialEq, Eq, Copy, Clone, Structural)]
#[allow(non_camel_case_types)]
pub enum ucl_type_t {
    UCL_OBJECT,
    UCL_ARRAY,
    UCL_INT,
    UCL_FLOAT,
    UCL_STRING,
    UCL_BOOLEAN,
    UCL_TIME,
    UCL_USERDATA,
    UCL_NULL,
}

/// The kind that a numbered code names.
pub open spec fn type_of_code(t: ucl_type_t) -> Type {
    match t {
        ucl_type_t::UCL_OBJECT => Type::Object,
        ucl_type_t::UCL_ARRAY => Type::Array,
        ucl_type_t::UCL_INT => Type::Int,
        ucl_type_t::UCL_FLOAT => Type::Float,
        ucl_type_t::UCL_STRING => Type::String,
        ucl_type_t::UCL_BOOLEAN => Type::Boolean,
        ucl_type_t::UCL_TIME => Type::Time,
        ucl_type_t::UCL_USERDATA => Type::UserData,
        ucl_type_t::UCL_NULL => Type::Null,
    }
}

impl From<ucl_type_t> for Type {
    fn from(typ: ucl_type_t) -> (r: Type) {
        match typ {
            ucl_type_t::UCL_OBJECT => Type::Object,
            ucl_type_t::UCL_ARRAY => Type::Array,
            ucl_type_t::UCL_INT => Type::Int,
            ucl_type_t::UCL_FLOAT => Type::Float,
            ucl_type_t::UCL_STRING => Type::String,
            ucl_type_t::UCL_BOOLEAN => Type::Boolean,
            ucl_type_t::UCL_TIME => Type::Time,
            ucl_type_t::UCL_USERDATA => Type::UserData,
            ucl_type_t::UCL_NULL => Type::Null,
        }
    }
}

impl vstd::std_specs::convert::FromSpecImpl<ucl_type_t> for Type {
    open spec fn obeys_from_spec() -> bool {
        true
    }

    open spec fn from_spec(typ: ucl_type_t) -> Type {
        type_of_code(typ)
    }
}

} // verus!
