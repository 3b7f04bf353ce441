//! Runtime values and their types.
//!
//! A floating-point value is held as its IEEE 754 binary64 bit pattern. Order and
//! equality are read off the pattern; arithmetic is not done here (see `floats`).

use crate::exact::Exact;
use crate::model::Datum;
use crate::text::same_text;
use vstd::prelude::*;

verus! {

/// The declared type of a lens.
#[derive(Debug, Clone, Copy, PartialEq, Eq, Structural)]
pub enum Type {
    Int,
    Float,
    Str,
    Bool,
}

impl Exact for Type {
    fn dup(&self) -> (r: Self) {
        *self
    }
}

impl Type {
    pub open spec fn name(self) -> Seq<char> {
        match self {
            Type::Int => "int"@,
            Type::Float => "float"@,
            Type::Str => "str"@,
            Type::Bool => "bool"@,
        }
    }

    /// The name by which the query language knows the type.
    pub fn keyword(self) -> (r: &'static str)
        ensures
            r@ == self.name(),
    {
        match self {
            Type::Int => "int",
            Type::Float => "float",
            Type::Str => "str",
            Type::Bool => "bool",
        }
    }
}

/// A runtime value.
#[derive(Debug, Clone, PartialEq)]
pub enum Value {
    Null,
    Bool(bool),
    Str(String),
    /// The bit pattern of a binary64 number.
    Float(u64),
    Int(i64),
}

/// The sign bit of a binary64 pattern.
pub const SIGN_BIT: u64 = 0x8000_0000_0000_0000;

/// The pattern of positive infinity; patterns of greater magnitude are not numbers.
pub const INFINITY_BITS: u64 = 0x7ff0_0000_0000_0000;

/// Where a pattern stands in the order of the numbers: patterns of numbers are ordered
/// as their keys are, and both zeros have key 0.
pub open spec fn float_key(bits: u64) -> int {
    if bits < SIGN_BIT {
        bits as int
    } else {
        SIGN_BIT - bits
    }
}

pub open spec fn float_is_nan(bits: u64) -> bool {
    float_key(bits) > INFINITY_BITS || float_key(bits) < -INFINITY_BITS
}

/// Numeric equality of two patterns: not-a-number equals nothing.
pub open spec fn float_eq(a: u64, b: u64) -> bool {
    !float_is_nan(a) && !float_is_nan(b) && float_key(a) == float_key(b)
}

/// Numeric order of two patterns: not-a-number is unordered.
pub open spec fn float_lt(a: u64, b: u64) -> bool {
    !float_is_nan(a) && !float_is_nan(b) && float_key(a) < float_key(b)
}

/// The pattern with the sign turned over.
pub open spec fn float_neg(bits: u64) -> u64 {
    if bits < SIGN_BIT {
        (bits + SIGN_BIT) as u64
    } else {
        (bits - SIGN_BIT) as u64
    }
}

/// The key of a pattern.
pub fn float_order(bits: u64) -> (r: i64)
    ensures
        r == float_key(bits),
{
    if bits < SIGN_BIT {
        bits as i64
    } else {
        0 - ((bits - SIGN_BIT) as i64)
    }
}

pub fn is_nan(bits: u64) -> (r: bool)
    ensures
        r == float_is_nan(bits),
{
    let k: i64 = float_order(bits);
    k > INFINITY_BITS as i64 || k < 0 - (INFINITY_BITS as i64)
}

pub fn floats_equal(a: u64, b: u64) -> (r: bool)
    ensures
        r == float_eq(a, b),
{
    !is_nan(a) && !is_nan(b) && float_order(a) == float_order(b)
}

pub fn float_less(a: u64, b: u64) -> (r: bool)
    ensures
        r == float_lt(a, b),
{
    !is_nan(a) && !is_nan(b) && float_order(a) < float_order(b)
}

pub fn negate_float(bits: u64) -> (r: u64)
    ensures
        r == float_neg(bits),
{
    if bits < SIGN_BIT {
        bits + SIGN_BIT
    } else {
        bits - SIGN_BIT
    }
}

impl Exact for Value {
    fn dup(&self) -> (r: Self) {
        match self {
            Value::Null => Value::Null,
            Value::Bool(b) => Value::Bool(*b),
            Value::Str(s) => Value::Str(s.clone()),
            Value::Float(bits) => Value::Float(*bits),
            Value::Int(i) => Value::Int(*i),
        }
    }
}

impl Datum for Value {
    open spec fn alike(&self, other: &Self) -> bool {
        match (*self, *other) {
            (Value::Null, Value::Null) => true,
            (Value::Bool(a), Value::Bool(b)) => a == b,
            (Value::Str(a), Value::Str(b)) => a@ == b@,
            (Value::Float(a), Value::Float(b)) => float_eq(a, b),
            (Value::Int(a), Value::Int(b)) => a == b,
            _ => false,
        }
    }

    fn is_alike(&self, other: &Self) -> (b: bool) {
        match (self, other) {
            (Value::Null, Value::Null) => true,
            (Value::Bool(a), Value::Bool(b)) => *a == *b,
            (Value::Str(a), Value::Str(b)) => same_text(a.as_str(), b.as_str()),
            (Value::Float(a), Value::Float(b)) => floats_equal(*a, *b),
            (Value::Int(a), Value::Int(b)) => *a == *b,
            _ => false,
        }
    }

    proof fn alike_symmetric(a: Self, b: Self) {
    }

    proof fn alike_transitive(a: Self, b: Self, c: Self) {
    }
}

/// A value with its text as a sequence of characters.
pub enum ValueV {
    Null,
    Bool(bool),
    Str(Seq<char>),
    Float(u64),
    Int(i64),
}

impl View for Value {
    type V = ValueV;

    open spec fn view(&self) -> ValueV {
        match *self {
            Value::Null => ValueV::Null,
            Value::Bool(b) => ValueV::Bool(b),
            Value::Str(s) => ValueV::Str(s@),
            Value::Float(bits) => ValueV::Float(bits),
            Value::Int(i) => ValueV::Int(i),
        }
    }
}

impl Value {
    pub open spec fn kind(self) -> Option<Type> {
        match self {
            Value::Null => None,
            Value::Bool(_) => Some(Type::Bool),
            Value::Str(_) => Some(Type::Str),
            Value::Float(_) => Some(Type::Float),
            Value::Int(_) => Some(Type::Int),
        }
    }

    /// The type of the value; `None` for null, which fits every lens.
    pub fn ty(&self) -> (r: Option<Type>)
        ensures
            r == self.kind(),
    {
        match self {
            Value::Null => None,
            Value::Bool(_) => Some(Type::Bool),
            Value::Str(_) => Some(Type::Str),
            Value::Float(_) => Some(Type::Float),
            Value::Int(_) => Some(Type::Int),
        }
    }

    pub open spec fn kind_name(self) -> Seq<char> {
        match self.kind() {
            Some(ty) => ty.name(),
            None => "null"@,
        }
    }

    /// The name of the value's type, for messages.
    pub fn type_label(&self) -> (r: &'static str)
        ensures
            r@ == self.kind_name(),
    {
        match self.ty() {
            Some(ty) => ty.keyword(),
            None => "null",
        }
    }
}

} // verus!
