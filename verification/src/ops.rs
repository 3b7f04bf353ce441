//! Operators and aggregates on values.

use crate::ast::{BinOp, Literal, UnOp};
use crate::clock::{add_clamped, clamp};
use crate::error::{same, ExecError, ExecErrorV};
use crate::exact::Exact;
use crate::floats::{FloatTable, FloatTask, FloatTaskV};
use crate::text::{owned, same_text};
use crate::value::{
    float_eq, float_key, float_less, float_lt, float_neg, float_order, floats_equal, is_nan,
    negate_float, Value,
};
use crate::value::float_is_nan;
use vstd::prelude::*;
use vstd::string::*;

verus! {

pub open spec fn invalid(message: Seq<char>) -> ExecErrorV {
    ExecErrorV::InvalidExpr(message)
}

fn invalid_expr(message: &str) -> (r: ExecError)
    ensures
        r@ == invalid(message@),
{
    ExecError::InvalidExpr(owned(message))
}

/// What is asked, and what came instead.
fn invalid_expr_got(a: &str, b: &str) -> (r: ExecError)
    ensures
        r@ == invalid(a@ + b@),
{
    let mut out = owned(a);
    out.append(b);
    ExecError::InvalidExpr(out)
}

/// A message that names two things.
fn invalid_expr_of(a: &str, b: &str, c: &str, d: &str) -> (r: ExecError)
    ensures
        r@ == invalid(a@ + b@ + c@ + d@),
{
    let mut out = owned(a);
    out.append(b);
    out.append(c);
    out.append(d);
    ExecError::InvalidExpr(out)
}

/// The recorded result of a task, or the call for it.
pub open spec fn done(floats: &FloatTable, task: FloatTaskV) -> Result<u64, ExecErrorV> {
    match floats.result(task) {
        Some(bits) => Ok(bits),
        None => Err(ExecErrorV::Pending(task)),
    }
}

/// The recorded result of a task, or the call for it.
pub fn resolve(floats: &FloatTable, task: FloatTask) -> (r: Result<u64, ExecError>)
    ensures
        same(r, done(floats, task@)),
{
    match floats.lookup(&task) {
        Some(bits) => Ok(bits),
        None => Err(ExecError::Pending(task)),
    }
}

/// A literal as a value.
pub open spec fn literal_value_of(l: Literal, floats: &FloatTable) -> Result<Value, ExecErrorV> {
    match l {
        Literal::Null => Ok(Value::Null),
        Literal::Bool(b) => Ok(Value::Bool(b)),
        Literal::Str(s) => Ok(Value::Str(s)),
        Literal::Int(i) => Ok(Value::Int(i)),
        Literal::Float(s) => match done(floats, FloatTaskV::Parse(s@)) {
            Ok(bits) => Ok(Value::Float(bits)),
            Err(e) => Err(e),
        },
    }
}

/// A literal as a value.
pub fn literal_value(l: &Literal, floats: &FloatTable) -> (r: Result<Value, ExecError>)
    ensures
        same(r, literal_value_of(*l, floats)),
{
    match l {
        Literal::Null => Ok(Value::Null),
        Literal::Bool(b) => Ok(Value::Bool(*b)),
        Literal::Str(s) => Ok(Value::Str(s.clone())),
        Literal::Int(i) => Ok(Value::Int(*i)),
        Literal::Float(s) => match resolve(floats, FloatTask::Parse(s.clone())) {
            Ok(bits) => Ok(Value::Float(bits)),
            Err(e) => Err(e),
        },
    }
}

pub open spec fn un_op_name(op: UnOp) -> Seq<char> {
    match op {
        UnOp::Neg => "Neg"@,
        UnOp::Not => "Not"@,
    }
}

fn un_op_label(op: UnOp) -> (r: &'static str)
    ensures
        r@ == un_op_name(op),
{
    match op {
        UnOp::Neg => "Neg",
        UnOp::Not => "Not",
    }
}

pub open spec fn bin_op_name(op: BinOp) -> Seq<char> {
    match op {
        BinOp::Or => "Or"@,
        BinOp::And => "And"@,
        BinOp::Eq => "Eq"@,
        BinOp::NotEq => "NotEq"@,
        BinOp::Lt => "Lt"@,
        BinOp::LtEq => "LtEq"@,
        BinOp::Gt => "Gt"@,
        BinOp::GtEq => "GtEq"@,
        BinOp::Add => "Add"@,
        BinOp::Sub => "Sub"@,
        BinOp::Mul => "Mul"@,
        BinOp::Div => "Div"@,
        BinOp::Mod => "Mod"@,
    }
}

fn bin_op_label(op: BinOp) -> (r: &'static str)
    ensures
        r@ == bin_op_name(op),
{
    match op {
        BinOp::Or => "Or",
        BinOp::And => "And",
        BinOp::Eq => "Eq",
        BinOp::NotEq => "NotEq",
        BinOp::Lt => "Lt",
        BinOp::LtEq => "LtEq",
        BinOp::Gt => "Gt",
        BinOp::GtEq => "GtEq",
        BinOp::Add => "Add",
        BinOp::Sub => "Sub",
        BinOp::Mul => "Mul",
        BinOp::Div => "Div",
        BinOp::Mod => "Mod",
    }
}

/// A sign applied to a value. Integers wrap.
pub open spec fn unary_of(op: UnOp, v: Value) -> Result<Value, ExecErrorV> {
    match (op, v) {
        (UnOp::Neg, Value::Int(i)) => Ok(Value::Int(0i64.wrapping_sub(i))),
        (UnOp::Neg, Value::Float(bits)) => Ok(Value::Float(float_neg(bits))),
        (UnOp::Not, Value::Bool(b)) => Ok(Value::Bool(!b)),
        _ => Err(invalid("cannot apply "@ + un_op_name(op) + " to "@ + v.kind_name())),
    }
}

pub fn apply_unary(op: UnOp, v: Value) -> (r: Result<Value, ExecError>)
    ensures
        same(r, unary_of(op, v)),
{
    match (op, &v) {
        (UnOp::Neg, Value::Int(i)) => Ok(Value::Int(0i64.wrapping_sub(*i))),
        (UnOp::Neg, Value::Float(bits)) => Ok(Value::Float(negate_float(*bits))),
        (UnOp::Not, Value::Bool(b)) => Ok(Value::Bool(!*b)),
        _ => Err(invalid_expr_of("cannot apply ", un_op_label(op), " to ", v.type_label())),
    }
}

/// The binary64 pattern of an integer or a float; `None` for other values.
pub open spec fn as_float(v: Value, floats: &FloatTable) -> Result<Option<u64>, ExecErrorV> {
    match v {
        Value::Int(i) => match done(floats, FloatTaskV::FromInt(i)) {
            Ok(bits) => Ok(Some(bits)),
            Err(e) => Err(e),
        },
        Value::Float(bits) => Ok(Some(bits)),
        _ => Ok(None),
    }
}

pub fn to_float(v: &Value, floats: &FloatTable) -> (r: Result<Option<u64>, ExecError>)
    ensures
        same(r, as_float(*v, floats)),
{
    match v {
        Value::Int(i) => match resolve(floats, FloatTask::FromInt(*i)) {
            Ok(bits) => Ok(Some(bits)),
            Err(e) => Err(e),
        },
        Value::Float(bits) => Ok(Some(*bits)),
        _ => Ok(None),
    }
}

/// Arithmetic and order on integers. Sums, differences and products wrap; quotients round
/// toward zero.
pub open spec fn int_binary_of(op: BinOp, x: i64, y: i64) -> Result<Value, ExecErrorV> {
    match op {
        BinOp::Add => Ok(Value::Int(x.wrapping_add(y))),
        BinOp::Sub => Ok(Value::Int(x.wrapping_sub(y))),
        BinOp::Mul => Ok(Value::Int(x.wrapping_mul(y))),
        BinOp::Div => if y == 0 {
            Err(invalid("divide by zero"@))
        } else {
            match x.checked_div(y) {
                Some(q) => Ok(Value::Int(q)),
                None => Err(invalid("integer overflow"@)),
            }
        },
        BinOp::Mod => if y == 0 {
            Err(invalid("modulo by zero"@))
        } else {
            match x.checked_rem(y) {
                Some(q) => Ok(Value::Int(q)),
                None => Err(invalid("integer overflow"@)),
            }
        },
        BinOp::Lt => Ok(Value::Bool(x < y)),
        BinOp::LtEq => Ok(Value::Bool(x <= y)),
        BinOp::Gt => Ok(Value::Bool(x > y)),
        BinOp::GtEq => Ok(Value::Bool(x >= y)),
        BinOp::Eq => Ok(Value::Bool(x == y)),
        BinOp::NotEq => Ok(Value::Bool(x != y)),
        BinOp::And => Err(invalid("not an operator on integers"@)),
        BinOp::Or => Err(invalid("not an operator on integers"@)),
    }
}

/// Arithmetic and order on integers. The quotient of the least integer by minus one, which
/// no integer holds, is refused.
pub fn apply_int_binary_op(op: BinOp, x: i64, y: i64) -> (r: Result<Value, ExecError>)
    ensures
        same(r, int_binary_of(op, x, y)),
{
    match op {
        BinOp::Add => Ok(Value::Int(x.wrapping_add(y))),
        BinOp::Sub => Ok(Value::Int(x.wrapping_sub(y))),
        BinOp::Mul => Ok(Value::Int(x.wrapping_mul(y))),
        BinOp::Div => if y == 0 {
            Err(invalid_expr("divide by zero"))
        } else {
            match x.checked_div(y) {
                Some(q) => Ok(Value::Int(q)),
                None => Err(invalid_expr("integer overflow")),
            }
        },
        BinOp::Mod => if y == 0 {
            Err(invalid_expr("modulo by zero"))
        } else {
            match x.checked_rem(y) {
                Some(q) => Ok(Value::Int(q)),
                None => Err(invalid_expr("integer overflow")),
            }
        },
        BinOp::Lt => Ok(Value::Bool(x < y)),
        BinOp::LtEq => Ok(Value::Bool(x <= y)),
        BinOp::Gt => Ok(Value::Bool(x > y)),
        BinOp::GtEq => Ok(Value::Bool(x >= y)),
        BinOp::Eq => Ok(Value::Bool(x == y)),
        BinOp::NotEq => Ok(Value::Bool(x != y)),
        BinOp::And => Err(invalid_expr("not an operator on integers")),
        BinOp::Or => Err(invalid_expr("not an operator on integers")),
    }
}

pub open spec fn float_result(r: Result<u64, ExecErrorV>) -> Result<Value, ExecErrorV> {
    match r {
        Ok(bits) => Ok(Value::Float(bits)),
        Err(e) => Err(e),
    }
}

fn as_float_value(r: Result<u64, ExecError>) -> (v: Result<Value, ExecError>)
    ensures
        match r {
            Ok(bits) => v == Ok::<Value, ExecError>(Value::Float(bits)),
            Err(e) => v == Err::<Value, ExecError>(e),
        },
{
    match r {
        Ok(bits) => Ok(Value::Float(bits)),
        Err(e) => Err(e),
    }
}

/// Arithmetic and order on floats. A zero divisor, of either sign, is refused.
pub open spec fn float_binary_of(op: BinOp, x: u64, y: u64, floats: &FloatTable) -> Result<
    Value,
    ExecErrorV,
> {
    match op {
        BinOp::Add => float_result(done(floats, FloatTaskV::Sum(x, y))),
        BinOp::Sub => float_result(done(floats, FloatTaskV::Difference(x, y))),
        BinOp::Mul => float_result(done(floats, FloatTaskV::Product(x, y))),
        BinOp::Div => if float_key(y) == 0 {
            Err(invalid("divide by zero"@))
        } else {
            float_result(done(floats, FloatTaskV::Quotient(x, y)))
        },
        BinOp::Mod => if float_key(y) == 0 {
            Err(invalid("modulo by zero"@))
        } else {
            float_result(done(floats, FloatTaskV::Remainder(x, y)))
        },
        BinOp::Lt => Ok(Value::Bool(float_lt(x, y))),
        BinOp::LtEq => Ok(Value::Bool(float_lt(x, y) || float_eq(x, y))),
        BinOp::Gt => Ok(Value::Bool(float_lt(y, x))),
        BinOp::GtEq => Ok(Value::Bool(float_lt(y, x) || float_eq(x, y))),
        BinOp::Eq => Ok(Value::Bool(float_eq(x, y))),
        BinOp::NotEq => Ok(Value::Bool(!float_eq(x, y))),
        BinOp::And => Err(invalid("not an operator on floats"@)),
        BinOp::Or => Err(invalid("not an operator on floats"@)),
    }
}

pub fn apply_float_binary_op(op: BinOp, x: u64, y: u64, floats: &FloatTable) -> (r: Result<
    Value,
    ExecError,
>)
    ensures
        same(r, float_binary_of(op, x, y, floats)),
{
    match op {
        BinOp::Add => as_float_value(resolve(floats, FloatTask::Sum(x, y))),
        BinOp::Sub => as_float_value(resolve(floats, FloatTask::Difference(x, y))),
        BinOp::Mul => as_float_value(resolve(floats, FloatTask::Product(x, y))),
        BinOp::Div => if float_order(y) == 0 {
            Err(invalid_expr("divide by zero"))
        } else {
            as_float_value(resolve(floats, FloatTask::Quotient(x, y)))
        },
        BinOp::Mod => if float_order(y) == 0 {
            Err(invalid_expr("modulo by zero"))
        } else {
            as_float_value(resolve(floats, FloatTask::Remainder(x, y)))
        },
        BinOp::Lt => Ok(Value::Bool(float_less(x, y))),
        BinOp::LtEq => Ok(Value::Bool(float_less(x, y) || floats_equal(x, y))),
        BinOp::Gt => Ok(Value::Bool(float_less(y, x))),
        BinOp::GtEq => Ok(Value::Bool(float_less(y, x) || floats_equal(x, y))),
        BinOp::Eq => Ok(Value::Bool(floats_equal(x, y))),
        BinOp::NotEq => Ok(Value::Bool(!floats_equal(x, y))),
        BinOp::And => Err(invalid_expr("not an operator on floats")),
        BinOp::Or => Err(invalid_expr("not an operator on floats")),
    }
}

/// Equality of values. Integers are compared as they are, and other numbers as floats; null
/// equals only null; other values of different types cannot be compared.
pub open spec fn equal_of(a: Value, b: Value, floats: &FloatTable) -> Result<bool, ExecErrorV> {
    match (a, b) {
        (Value::Null, Value::Null) => Ok(true),
        (Value::Null, _) => Ok(false),
        (_, Value::Null) => Ok(false),
        (Value::Bool(x), Value::Bool(y)) => Ok(x == y),
        (Value::Str(x), Value::Str(y)) => Ok(x@ == y@),
        (Value::Int(x), Value::Int(y)) => Ok(x == y),
        _ => if is_number(a) && is_number(b) {
            match (as_float(a, floats), as_float(b, floats)) {
                (Err(e), _) => Err(e),
                (_, Err(e)) => Err(e),
                (Ok(x), Ok(y)) => Ok(float_eq(x->0, y->0)),
            }
        } else {
            Err(invalid("cannot compare "@ + a.kind_name() + " with "@ + b.kind_name()))
        },
    }
}

pub open spec fn is_number(v: Value) -> bool {
    v is Int || v is Float
}

pub fn values_equal(a: &Value, b: &Value, floats: &FloatTable) -> (r: Result<bool, ExecError>)
    ensures
        same(r, equal_of(*a, *b, floats)),
{
    match (a, b) {
        (Value::Null, Value::Null) => {
            return Ok(true);
        },
        (Value::Null, _) => {
            return Ok(false);
        },
        (_, Value::Null) => {
            return Ok(false);
        },
        (Value::Bool(x), Value::Bool(y)) => {
            return Ok(*x == *y);
        },
        (Value::Str(x), Value::Str(y)) => {
            return Ok(same_text(x.as_str(), y.as_str()));
        },
        (Value::Int(x), Value::Int(y)) => {
            return Ok(*x == *y);
        },
        _ => {},
    }
    let numbers: bool = match (a, b) {
        (Value::Int(_), Value::Float(_)) => true,
        (Value::Float(_), Value::Int(_)) => true,
        (Value::Float(_), Value::Float(_)) => true,
        _ => false,
    };
    if numbers {
        let x: Option<u64> = match to_float(a, floats) {
            Ok(x) => x,
            Err(e) => {
                return Err(e);
            },
        };
        let y: Option<u64> = match to_float(b, floats) {
            Ok(y) => y,
            Err(e) => {
                return Err(e);
            },
        };
        match (x, y) {
            (Some(x), Some(y)) => Ok(floats_equal(x, y)),
            _ => Ok(false),
        }
    } else {
        Err(invalid_expr_of("cannot compare ", a.type_label(), " with ", b.type_label()))
    }
}

/// A binary operator applied to two values.
pub open spec fn binary_of(op: BinOp, a: Value, b: Value, floats: &FloatTable) -> Result<
    Value,
    ExecErrorV,
> {
    if op == BinOp::And || op == BinOp::Or {
        match (a, b) {
            (Value::Bool(x), Value::Bool(y)) => Ok(
                Value::Bool(
                    if op == BinOp::And {
                        x && y
                    } else {
                        x || y
                    },
                ),
            ),
            _ => Err(
                invalid(
                    "logical "@ + bin_op_name(op) + " requires bool/bool, got "@ + (a.kind_name()
                        + "/"@ + b.kind_name()),
                ),
            ),
        }
    } else if op == BinOp::Eq || op == BinOp::NotEq {
        match equal_of(a, b, floats) {
            Ok(eq) => Ok(Value::Bool(eq == (op == BinOp::Eq))),
            Err(e) => Err(e),
        }
    } else if a is Int && b is Int {
        int_binary_of(op, a->Int_0, b->Int_0)
    } else {
        match (as_float(a, floats), as_float(b, floats)) {
            (Err(e), _) => Err(e),
            (_, Err(e)) => Err(e),
            (Ok(Some(x)), Ok(Some(y))) => float_binary_of(op, x, y, floats),
            _ => Err(
                invalid(
                    "operator "@ + bin_op_name(op) + " requires numeric operands, got "@ + (
                    a.kind_name() + "/"@ + b.kind_name()),
                ),
            ),
        }
    }
}

fn two_kinds(a: &Value, b: &Value) -> (r: String)
    ensures
        r@ == a.kind_name() + "/"@ + b.kind_name(),
{
    let mut out = owned(a.type_label());
    out.append("/");
    out.append(b.type_label());
    out
}

pub fn apply_binary(op: BinOp, a: Value, b: Value, floats: &FloatTable) -> (r: Result<
    Value,
    ExecError,
>)
    ensures
        same(r, binary_of(op, a, b, floats)),
{
    if op == BinOp::And || op == BinOp::Or {
        return match (&a, &b) {
            (Value::Bool(x), Value::Bool(y)) => Ok(
                Value::Bool(
                    if op == BinOp::And {
                        *x && *y
                    } else {
                        *x || *y
                    },
                ),
            ),
            _ => Err(
                invalid_expr_of(
                    "logical ",
                    bin_op_label(op),
                    " requires bool/bool, got ",
                    two_kinds(&a, &b).as_str(),
                ),
            ),
        };
    }
    if op == BinOp::Eq || op == BinOp::NotEq {
        return match values_equal(&a, &b, floats) {
            Ok(eq) => Ok(Value::Bool(eq == (op == BinOp::Eq))),
            Err(e) => Err(e),
        };
    }
    if let (Value::Int(x), Value::Int(y)) = (&a, &b) {
        return apply_int_binary_op(op, *x, *y);
    }
    let x: Option<u64> = match to_float(&a, floats) {
        Ok(x) => x,
        Err(e) => {
            return Err(e);
        },
    };
    let y: Option<u64> = match to_float(&b, floats) {
        Ok(y) => y,
        Err(e) => {
            return Err(e);
        },
    };
    match (x, y) {
        (Some(x), Some(y)) => apply_float_binary_op(op, x, y, floats),
        _ => Err(
            invalid_expr_of(
                "operator ",
                bin_op_label(op),
                " requires numeric operands, got ",
                two_kinds(&a, &b).as_str(),
            ),
        ),
    }
}

/// The lesser of two floats, or the greater; where one is not a number, the other.
pub open spec fn float_pick(x: u64, y: u64, want_max: bool) -> u64 {
    if float_is_nan(x) {
        y
    } else if float_is_nan(y) {
        x
    } else if want_max {
        if float_key(y) > float_key(x) {
            y
        } else {
            x
        }
    } else {
        if float_key(y) < float_key(x) {
            y
        } else {
            x
        }
    }
}

fn pick_float(x: u64, y: u64, want_max: bool) -> (r: u64)
    ensures
        r == float_pick(x, y, want_max),
{
    if is_nan(x) {
        y
    } else if is_nan(y) {
        x
    } else if want_max {
        if float_order(y) > float_order(x) {
            y
        } else {
            x
        }
    } else {
        if float_order(y) < float_order(x) {
            y
        } else {
            x
        }
    }
}

/// The lesser or the greater of two numbers. Two integers give an integer, else a float.
pub open spec fn min_max_of(a: Value, b: Value, want_max: bool, floats: &FloatTable) -> Result<
    Value,
    ExecErrorV,
> {
    if a is Int && b is Int {
        let (x, y) = (a->Int_0, b->Int_0);
        Ok(
            Value::Int(
                if (x < y) == want_max {
                    y
                } else {
                    x
                },
            ),
        )
    } else {
        match (as_float(a, floats), as_float(b, floats)) {
            (Err(e), _) => Err(e),
            (_, Err(e)) => Err(e),
            (Ok(Some(x)), Ok(Some(y))) => Ok(Value::Float(float_pick(x, y, want_max))),
            _ => Err(
                invalid(
                    "min/max requires numeric values, got "@ + (a.kind_name() + "/"@
                        + b.kind_name()),
                ),
            ),
        }
    }
}

pub fn numeric_min_max(a: Value, b: Value, want_max: bool, floats: &FloatTable) -> (r: Result<
    Value,
    ExecError,
>)
    ensures
        same(r, min_max_of(a, b, want_max, floats)),
{
    if let (Value::Int(x), Value::Int(y)) = (&a, &b) {
        let picked: i64 = if (*x < *y) == want_max {
            *y
        } else {
            *x
        };
        return Ok(Value::Int(picked));
    }
    let x: Option<u64> = match to_float(&a, floats) {
        Ok(x) => x,
        Err(e) => {
            return Err(e);
        },
    };
    let y: Option<u64> = match to_float(&b, floats) {
        Ok(y) => y,
        Err(e) => {
            return Err(e);
        },
    };
    match (x, y) {
        (Some(x), Some(y)) => Ok(Value::Float(pick_float(x, y, want_max))),
        _ => Err(
            invalid_expr_got(
                "min/max requires numeric values, got ",
                two_kinds(&a, &b).as_str(),
            ),
        ),
    }
}

/// A stretch of time and the value that held over it.
pub type Weighted = (i64, Value);

/// The least or the greatest of the values, taken pairwise from the first on.
pub open spec fn min_max_fold(segs: Seq<Weighted>, want_max: bool, floats: &FloatTable) -> Result<
    Value,
    ExecErrorV,
>
    decreases segs.len(),
{
    if segs.len() <= 1 {
        Ok(segs[0].1)
    } else {
        match min_max_fold(segs.drop_last(), want_max, floats) {
            Ok(acc) => min_max_of(acc, segs.last().1, want_max, floats),
            Err(e) => Err(e),
        }
    }
}

pub fn fold_min_max(segments: &Vec<Weighted>, want_max: bool, floats: &FloatTable) -> (r: Result<
    Value,
    ExecError,
>)
    requires
        segments@.len() > 0,
    ensures
        same(r, min_max_fold(segments@, want_max, floats)),
{
    let mut acc: Value = segments[0].1.dup();
    let mut i: usize = 1;
    while i < segments.len()
        invariant
            1 <= i <= segments@.len(),
            min_max_fold(segments@.take(i as int), want_max, floats) == Ok::<Value, ExecErrorV>(
                acc,
            ),
        decreases segments@.len() - i,
    {
        proof {
            assert(segments@.take(i + 1).drop_last() =~= segments@.take(i as int));
            assert(segments@.take(i + 1).last() == segments@[i as int]);
        }
        match numeric_min_max(acc, segments[i].1.dup(), want_max, floats) {
            Ok(v) => {
                acc = v;
            },
            Err(e) => {
                proof {
                    lemma_min_max_error(segments@, i + 1, want_max, floats);
                }
                return Err(e);
            },
        }
        i = i + 1;
    }
    assert(segments@.take(segments@.len() as int) =~= segments@);
    Ok(acc)
}

/// An error in a prefix is the error of the whole.
proof fn lemma_min_max_error(segs: Seq<Weighted>, k: int, want_max: bool, floats: &FloatTable)
    requires
        2 <= k <= segs.len(),
        min_max_fold(segs.take(k), want_max, floats) is Err,
    ensures
        min_max_fold(segs, want_max, floats) == min_max_fold(segs.take(k), want_max, floats),
    decreases segs.len(),
{
    if k < segs.len() {
        assert(segs.drop_last().take(k) =~= segs.take(k));
        lemma_min_max_error(segs.drop_last(), k, want_max, floats);
    } else {
        assert(segs.take(k) =~= segs);
    }
}

/// A running sum: an integer until the first float, a float from then on.
pub open spec fn sum_step(acc: Value, v: Value, floats: &FloatTable) -> Result<Value, ExecErrorV> {
    match (acc, v) {
        (Value::Int(a), Value::Int(i)) => Ok(Value::Int(a.wrapping_add(i))),
        (Value::Float(a), Value::Int(i)) => match done(floats, FloatTaskV::FromInt(i)) {
            Ok(b) => float_result(done(floats, FloatTaskV::Sum(a, b))),
            Err(e) => Err(e),
        },
        (Value::Int(a), Value::Float(b)) => match done(floats, FloatTaskV::FromInt(a)) {
            Ok(a) => float_result(done(floats, FloatTaskV::Sum(a, b))),
            Err(e) => Err(e),
        },
        (Value::Float(a), Value::Float(b)) => float_result(done(floats, FloatTaskV::Sum(a, b))),
        _ => Err(
            invalid("sum requires numeric values, got "@ + v.kind_name()),
        ),
    }
}

/// The sum of the values. Integers wrap.
pub open spec fn sum_of(segs: Seq<Weighted>, floats: &FloatTable) -> Result<Value, ExecErrorV>
    decreases segs.len(),
{
    if segs.len() == 0 {
        Ok(Value::Int(0))
    } else {
        match sum_of(segs.drop_last(), floats) {
            Ok(acc) => sum_step(acc, segs.last().1, floats),
            Err(e) => Err(e),
        }
    }
}

fn add_to_sum(acc: &Value, v: &Value, floats: &FloatTable) -> (r: Result<Value, ExecError>)
    ensures
        same(r, sum_step(*acc, *v, floats)),
{
    match (acc, v) {
        (Value::Int(a), Value::Int(i)) => Ok(Value::Int(a.wrapping_add(*i))),
        (Value::Float(a), Value::Int(i)) => match resolve(floats, FloatTask::FromInt(*i)) {
            Ok(b) => as_float_value(resolve(floats, FloatTask::Sum(*a, b))),
            Err(e) => Err(e),
        },
        (Value::Int(a), Value::Float(b)) => match resolve(floats, FloatTask::FromInt(*a)) {
            Ok(a) => as_float_value(resolve(floats, FloatTask::Sum(a, *b))),
            Err(e) => Err(e),
        },
        (Value::Float(a), Value::Float(b)) => as_float_value(
            resolve(floats, FloatTask::Sum(*a, *b)),
        ),
        _ => Err(
            invalid_expr_got("sum requires numeric values, got ", v.type_label()),
        ),
    }
}

pub fn agg_sum(segments: &Vec<Weighted>, floats: &FloatTable) -> (r: Result<Value, ExecError>)
    ensures
        same(r, sum_of(segments@, floats)),
{
    let mut acc: Value = Value::Int(0);
    let mut i: usize = 0;
    assert(segments@.take(0) =~= Seq::empty());
    while i < segments.len()
        invariant
            i <= segments@.len(),
            sum_of(segments@.take(i as int), floats) == Ok::<Value, ExecErrorV>(acc),
        decreases segments@.len() - i,
    {
        proof {
            assert(segments@.take(i + 1).drop_last() =~= segments@.take(i as int));
            assert(segments@.take(i + 1).last() == segments@[i as int]);
        }
        match add_to_sum(&acc, &segments[i].1, floats) {
            Ok(v) => {
                acc = v;
            },
            Err(e) => {
                proof {
                    lemma_sum_error(segments@, i + 1, floats);
                }
                return Err(e);
            },
        }
        i = i + 1;
    }
    assert(segments@.take(segments@.len() as int) =~= segments@);
    Ok(acc)
}

proof fn lemma_sum_error(segs: Seq<Weighted>, k: int, floats: &FloatTable)
    requires
        1 <= k <= segs.len(),
        sum_of(segs.take(k), floats) is Err,
    ensures
        sum_of(segs, floats) == sum_of(segs.take(k), floats),
    decreases segs.len(),
{
    if k < segs.len() {
        assert(segs.drop_last().take(k) =~= segs.take(k));
        lemma_sum_error(segs.drop_last(), k, floats);
    } else {
        assert(segs.take(k) =~= segs);
    }
}

/// The summed length of the stretches, held to the range of 64 bits.
pub open spec fn total_of(segs: Seq<Weighted>) -> i64
    decreases segs.len(),
{
    if segs.len() == 0 {
        0
    } else {
        clamp(total_of(segs.drop_last()) + segs.last().0)
    }
}

/// One more summand of a weighted sum: the value times its stretch.
pub open spec fn weighted_step(acc: u64, d: i64, v: Value, floats: &FloatTable) -> Result<
    u64,
    ExecErrorV,
> {
    match as_float(v, floats) {
        Err(e) => Err(e),
        Ok(None) => Err(
            invalid("avg requires numeric values, got "@ + v.kind_name()),
        ),
        Ok(Some(x)) => match done(floats, FloatTaskV::FromInt(d)) {
            Err(e) => Err(e),
            Ok(w) => match done(floats, FloatTaskV::Product(x, w)) {
                Err(e) => Err(e),
                Ok(p) => done(floats, FloatTaskV::Sum(acc, p)),
            },
        },
    }
}

/// The sum of the values, each times its stretch, from zero on.
pub open spec fn weighted_sum_of(segs: Seq<Weighted>, floats: &FloatTable) -> Result<
    u64,
    ExecErrorV,
>
    decreases segs.len(),
{
    if segs.len() == 0 {
        Ok(0)
    } else {
        match weighted_sum_of(segs.drop_last(), floats) {
            Ok(acc) => weighted_step(acc, segs.last().0, segs.last().1, floats),
            Err(e) => Err(e),
        }
    }
}

/// The mean of the values, each weighted by its stretch; none where the stretches are
/// empty.
pub open spec fn avg_of(segs: Seq<Weighted>, floats: &FloatTable) -> Result<
    Option<Value>,
    ExecErrorV,
> {
    if total_of(segs) == 0 {
        Ok(None)
    } else {
        match weighted_sum_of(segs, floats) {
            Err(e) => Err(e),
            Ok(sum) => match done(floats, FloatTaskV::FromInt(total_of(segs))) {
                Err(e) => Err(e),
                Ok(total) => match done(floats, FloatTaskV::Quotient(sum, total)) {
                    Err(e) => Err(e),
                    Ok(bits) => Ok(Some(Value::Float(bits))),
                },
            },
        }
    }
}

fn add_weighted(acc: u64, d: i64, v: &Value, floats: &FloatTable) -> (r: Result<u64, ExecError>)
    ensures
        same(r, weighted_step(acc, d, *v, floats)),
{
    match to_float(v, floats) {
        Err(e) => Err(e),
        Ok(None) => Err(
            invalid_expr_got("avg requires numeric values, got ", v.type_label()),
        ),
        Ok(Some(x)) => match resolve(floats, FloatTask::FromInt(d)) {
            Err(e) => Err(e),
            Ok(w) => match resolve(floats, FloatTask::Product(x, w)) {
                Err(e) => Err(e),
                Ok(p) => resolve(floats, FloatTask::Sum(acc, p)),
            },
        },
    }
}

pub fn agg_avg(segments: &Vec<Weighted>, floats: &FloatTable) -> (r: Result<
    Option<Value>,
    ExecError,
>)
    ensures
        same(r, avg_of(segments@, floats)),
{
    let mut total: i64 = 0;
    let mut i: usize = 0;
    assert(segments@.take(0) =~= Seq::empty());
    while i < segments.len()
        invariant
            i <= segments@.len(),
            total == total_of(segments@.take(i as int)),
        decreases segments@.len() - i,
    {
        proof {
            assert(segments@.take(i + 1).drop_last() =~= segments@.take(i as int));
            assert(segments@.take(i + 1).last() == segments@[i as int]);
        }
        total = add_clamped(total, segments[i].0);
        i = i + 1;
    }
    assert(segments@.take(segments@.len() as int) =~= segments@);
    if total == 0 {
        return Ok(None);
    }
    let mut sum: u64 = 0;
    i = 0;
    while i < segments.len()
        invariant
            i <= segments@.len(),
            total == total_of(segments@),
            total != 0,
            weighted_sum_of(segments@.take(i as int), floats) == Ok::<u64, ExecErrorV>(sum),
        decreases segments@.len() - i,
    {
        proof {
            assert(segments@.take(i + 1).drop_last() =~= segments@.take(i as int));
            assert(segments@.take(i + 1).last() == segments@[i as int]);
        }
        match add_weighted(sum, segments[i].0, &segments[i].1, floats) {
            Ok(s) => {
                sum = s;
            },
            Err(e) => {
                proof {
                    lemma_weighted_error(segments@, i + 1, floats);
                }
                return Err(e);
            },
        }
        i = i + 1;
    }
    assert(segments@.take(segments@.len() as int) =~= segments@);
    match resolve(floats, FloatTask::FromInt(total)) {
        Err(e) => Err(e),
        Ok(t) => match resolve(floats, FloatTask::Quotient(sum, t)) {
            Err(e) => Err(e),
            Ok(bits) => Ok(Some(Value::Float(bits))),
        },
    }
}

proof fn lemma_weighted_error(segs: Seq<Weighted>, k: int, floats: &FloatTable)
    requires
        1 <= k <= segs.len(),
        weighted_sum_of(segs.take(k), floats) is Err,
    ensures
        weighted_sum_of(segs, floats) == weighted_sum_of(segs.take(k), floats),
    decreases segs.len(),
{
    if k < segs.len() {
        assert(segs.drop_last().take(k) =~= segs.take(k));
        lemma_weighted_error(segs.drop_last(), k, floats);
    } else {
        assert(segs.take(k) =~= segs);
    }
}

} // verus!
