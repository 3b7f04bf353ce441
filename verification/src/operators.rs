//! What operators in expressions yield.

use crate::ast::{BinOp, Expr, Literal, UnOp};
use crate::error::ExecErrorV;
use crate::eval::{expr_at, Env};
use crate::floats::{FloatTable, FloatTaskV};
use crate::value::Value;
use vstd::prelude::*;

verus! {

/// What an expression yields at a time.
pub type Yield = Result<Option<Value>, ExecErrorV>;

/// The expression yields the result that the host gave for a task, or asks for it.
pub open spec fn host_gives(floats: &FloatTable, task: FloatTaskV, r: Yield) -> bool {
    match floats.result(task) {
        Some(bits) => r == Ok::<Option<Value>, ExecErrorV>(Some(Value::Float(bits))),
        None => r == Err::<Option<Value>, ExecErrorV>(ExecErrorV::Pending(task)),
    }
}

/// What an operator on the values of two expressions yields at a time.
pub open spec fn yields(
    env: Env,
    op: BinOp,
    lhs: Box<Expr>,
    rhs: Box<Expr>,
    t: i64,
    fuel: nat,
) -> Yield {
    expr_at(env, &Expr::Binary { op, lhs, rhs }, t, fuel)
}

/// The operand yields the value.
pub open spec fn operand(env: Env, e: Box<Expr>, t: i64, fuel: nat, v: Value) -> bool {
    expr_at(env, &*e, t, fuel) == Ok::<Option<Value>, ExecErrorV>(Some(v))
}

/// The truth value that a comparison yields.
pub open spec fn truth(r: Yield, b: bool) -> bool {
    r == Ok::<Option<Value>, ExecErrorV>(Some(Value::Bool(b)))
}

/// The integer that an operator yields.
pub open spec fn number(r: Yield, n: int) -> bool {
    r matches Ok(Some(Value::Int(i))) && i == n
}

/// The evaluation fails with a message.
pub open spec fn refused(r: Yield, message: Seq<char>) -> bool {
    r == Err::<Option<Value>, ExecErrorV>(ExecErrorV::InvalidExpr(message))
}

/// The evaluation fails with some message.
pub open spec fn complains(r: Yield) -> bool {
    r is Err && r->Err_0 is InvalidExpr
}

/// A float pattern of either zero.
pub open spec fn is_zero(bits: u64) -> bool {
    bits == 0 || bits == 0x8000_0000_0000_0000
}

/// Arithmetic on floats is the host's, with the operands in their order. A zero divisor is
/// refused.
pub proof fn law_float_arithmetic(
    env: Env,
    lhs: Box<Expr>,
    rhs: Box<Expr>,
    t: i64,
    fuel: nat,
    x: u64,
    y: u64,
)
    requires
        operand(env, lhs, t, fuel, Value::Float(x)),
        operand(env, rhs, t, fuel, Value::Float(y)),
    ensures
        host_gives(
            &env.floats,
            FloatTaskV::Sum(x, y),
            yields(env, BinOp::Add, lhs, rhs, t, fuel),
        ),
        host_gives(
            &env.floats,
            FloatTaskV::Difference(x, y),
            yields(env, BinOp::Sub, lhs, rhs, t, fuel),
        ),
        host_gives(
            &env.floats,
            FloatTaskV::Product(x, y),
            yields(env, BinOp::Mul, lhs, rhs, t, fuel),
        ),
        !is_zero(y) ==> host_gives(
            &env.floats,
            FloatTaskV::Quotient(x, y),
            yields(env, BinOp::Div, lhs, rhs, t, fuel),
        ),
        !is_zero(y) ==> host_gives(
            &env.floats,
            FloatTaskV::Remainder(x, y),
            yields(env, BinOp::Mod, lhs, rhs, t, fuel),
        ),
        is_zero(y) ==> refused(yields(env, BinOp::Div, lhs, rhs, t, fuel), "divide by zero"@),
        is_zero(y) ==> refused(yields(env, BinOp::Mod, lhs, rhs, t, fuel), "modulo by zero"@),
{
}

/// The pattern is not a number: its magnitude lies above infinity.
pub open spec fn not_a_number(bits: u64) -> bool {
    bits % 0x8000_0000_0000_0000 > 0x7ff0_0000_0000_0000
}

/// One pattern stands for a number below the other's. Patterns of one sign are ordered by
/// magnitude, and both zeros are the same number.
pub open spec fn below(x: u64, y: u64) -> bool {
    let (minus_x, minus_y) = (x >= 0x8000_0000_0000_0000, y >= 0x8000_0000_0000_0000);
    let (p, q) = (x % 0x8000_0000_0000_0000, y % 0x8000_0000_0000_0000);
    if not_a_number(x) || not_a_number(y) {
        false
    } else if minus_x && minus_y {
        p > q
    } else if minus_x {
        p > 0 || q > 0
    } else if minus_y {
        false
    } else {
        p < q
    }
}

/// The patterns stand for one number.
pub open spec fn same_number(x: u64, y: u64) -> bool {
    !not_a_number(x) && !not_a_number(y) && (x == y || is_zero(x) && is_zero(y))
}

/// Floats are compared as numbers: what is not a number is unequal to everything, and neither
/// less nor greater.
pub proof fn law_float_comparisons(
    env: Env,
    lhs: Box<Expr>,
    rhs: Box<Expr>,
    t: i64,
    fuel: nat,
    x: u64,
    y: u64,
)
    requires
        operand(env, lhs, t, fuel, Value::Float(x)),
        operand(env, rhs, t, fuel, Value::Float(y)),
    ensures
        truth(yields(env, BinOp::Lt, lhs, rhs, t, fuel), below(x, y)),
        truth(yields(env, BinOp::Gt, lhs, rhs, t, fuel), below(y, x)),
        truth(yields(env, BinOp::LtEq, lhs, rhs, t, fuel), below(x, y) || same_number(x, y)),
        truth(yields(env, BinOp::GtEq, lhs, rhs, t, fuel), below(y, x) || same_number(x, y)),
        truth(yields(env, BinOp::Eq, lhs, rhs, t, fuel), same_number(x, y)),
        truth(yields(env, BinOp::NotEq, lhs, rhs, t, fuel), !same_number(x, y)),
{
}

/// An integer that differs from another by a multiple of the word's size.
pub open spec fn wraps_to(n: int, i: i64) -> bool {
    (n - i) % 0x1_0000_0000_0000_0000 == 0
}

/// Sums, differences and products of integers are exact up to the size of a word.
pub proof fn law_int_arithmetic(
    env: Env,
    lhs: Box<Expr>,
    rhs: Box<Expr>,
    t: i64,
    fuel: nat,
    x: i64,
    y: i64,
)
    requires
        operand(env, lhs, t, fuel, Value::Int(x)),
        operand(env, rhs, t, fuel, Value::Int(y)),
    ensures
        yields(env, BinOp::Add, lhs, rhs, t, fuel) matches Ok(Some(Value::Int(i))) && wraps_to(
            x + y,
            i,
        ),
        yields(env, BinOp::Sub, lhs, rhs, t, fuel) matches Ok(Some(Value::Int(i))) && wraps_to(
            x - y,
            i,
        ),
        yields(env, BinOp::Mul, lhs, rhs, t, fuel) matches Ok(Some(Value::Int(i))) && wraps_to(
            x * y,
            i,
        ),
{
}

/// Magnitude.
pub open spec fn size_of(n: int) -> int {
    if n < 0 {
        -n
    } else {
        n
    }
}

/// The quotient of integers is rounded toward zero, and the remainder is what is left of the
/// dividend. A zero divisor is refused, and so is the quotient that no word holds.
pub proof fn law_int_division(
    env: Env,
    lhs: Box<Expr>,
    rhs: Box<Expr>,
    t: i64,
    fuel: nat,
    x: i64,
    y: i64,
)
    requires
        operand(env, lhs, t, fuel, Value::Int(x)),
        operand(env, rhs, t, fuel, Value::Int(y)),
    ensures
        ({
            let (q, r) = (
                yields(env, BinOp::Div, lhs, rhs, t, fuel),
                yields(env, BinOp::Mod, lhs, rhs, t, fuel),
            );
            if y == 0 {
                refused(q, "divide by zero"@) && refused(r, "modulo by zero"@)
            } else if x == i64::MIN && y == -1 {
                refused(q, "integer overflow"@) && refused(r, "integer overflow"@)
            } else {
                &&& q matches Ok(Some(Value::Int(q))) && r matches Ok(Some(Value::Int(r))) && {
                    &&& x == q * y + r
                    &&& size_of(r as int) < size_of(y as int)
                    &&& r != 0 ==> (r < 0) == (x < 0)
                }
            }
        }),
{
    if y != 0 && !(x == i64::MIN && y == -1) {
        let (a, d) = (size_of(x as int), size_of(y as int));
        let (q, r) = (a / d, a % d);
        vstd::arithmetic::div_mod::lemma_fundamental_div_mod(a, d);
        assert(0 <= r < d) by (nonlinear_arith)
            requires
                d > 0,
                r == a % d,
        ;
        assert(0 <= q <= a) by (nonlinear_arith)
            requires
                d > 0,
                a >= 0,
                a == d * q + r,
                0 <= r < d,
        ;
        assert(d >= 2 ==> 2 * q <= a) by (nonlinear_arith)
            requires
                a == d * q + r,
                0 <= q,
                0 <= r < d,
        ;
        let (m, n) = (
            yields(env, BinOp::Div, lhs, rhs, t, fuel)->Ok_0->0->Int_0,
            yields(env, BinOp::Mod, lhs, rhs, t, fuel)->Ok_0->0->Int_0,
        );
        assert(x * -1 == -x && y * -1 == -y);
        if x == 0 {
            assert(q == 0 && r == 0) by (nonlinear_arith)
                requires
                    d > 0,
                    0 == d * q + r,
                    0 <= q,
                    0 <= r < d,
            ;
        }
        assert(m == if (x < 0) == (y < 0) {
            q
        } else {
            -q
        });
        assert(n == if x < 0 {
            -r
        } else {
            r
        });
        assert(x == m * y + n) by (nonlinear_arith)
            requires
                a == d * q + r,
                a == if x < 0 {
                    -x
                } else {
                    x as int
                },
                d == if y < 0 {
                    -y
                } else {
                    y as int
                },
                m == if (x < 0) == (y < 0) {
                    q
                } else {
                    -q
                },
                n == if x < 0 {
                    -r
                } else {
                    r
                },
        ;
    }
}

/// Integers are compared as they are.
pub proof fn law_int_comparisons(
    env: Env,
    lhs: Box<Expr>,
    rhs: Box<Expr>,
    t: i64,
    fuel: nat,
    x: i64,
    y: i64,
)
    requires
        operand(env, lhs, t, fuel, Value::Int(x)),
        operand(env, rhs, t, fuel, Value::Int(y)),
    ensures
        truth(yields(env, BinOp::Lt, lhs, rhs, t, fuel), x < y),
        truth(yields(env, BinOp::Gt, lhs, rhs, t, fuel), x > y),
        truth(yields(env, BinOp::LtEq, lhs, rhs, t, fuel), x <= y),
        truth(yields(env, BinOp::GtEq, lhs, rhs, t, fuel), x >= y),
        truth(yields(env, BinOp::Eq, lhs, rhs, t, fuel), x == y),
        truth(yields(env, BinOp::NotEq, lhs, rhs, t, fuel), x != y),
{
}

/// The operand yields an integer, and another expression the float that the host makes of it.
pub open spec fn converted(
    env: Env,
    e: Box<Expr>,
    f: Box<Expr>,
    t: i64,
    fuel: nat,
    i: i64,
) -> bool {
    &&& operand(env, e, t, fuel, Value::Int(i))
    &&& env.floats.result(FloatTaskV::FromInt(i)) matches Some(x) && operand(
        env,
        f,
        t,
        fuel,
        Value::Float(x),
    )
}

/// An operator that is no logical one.
pub open spec fn is_numeric(op: BinOp) -> bool {
    !(op is And) && !(op is Or)
}

/// Beside a float, an integer counts as the float that the host makes of it, on either side.
/// Where the host has not made it yet, it is asked to.
pub proof fn law_integers_beside_floats(
    env: Env,
    op: BinOp,
    e: Box<Expr>,
    f: Box<Expr>,
    g: Box<Expr>,
    t: i64,
    fuel: nat,
    i: i64,
    y: u64,
)
    requires
        is_numeric(op),
        operand(env, e, t, fuel, Value::Int(i)),
        operand(env, g, t, fuel, Value::Float(y)),
    ensures
        converted(env, e, f, t, fuel, i) ==> yields(env, op, e, g, t, fuel) == yields(
            env,
            op,
            f,
            g,
            t,
            fuel,
        ) && yields(env, op, g, e, t, fuel) == yields(env, op, g, f, t, fuel),
        env.floats.result(FloatTaskV::FromInt(i)) is None ==> yields(env, op, e, g, t, fuel)
            == Err::<Option<Value>, ExecErrorV>(ExecErrorV::Pending(FloatTaskV::FromInt(i)))
            && yields(env, op, g, e, t, fuel) == Err::<Option<Value>, ExecErrorV>(
            ExecErrorV::Pending(FloatTaskV::FromInt(i)),
        ),
{
}

/// Truth values are joined by the logical operators, and by no other but equality.
pub proof fn law_logic(
    env: Env,
    lhs: Box<Expr>,
    rhs: Box<Expr>,
    t: i64,
    fuel: nat,
    x: bool,
    y: bool,
)
    requires
        operand(env, lhs, t, fuel, Value::Bool(x)),
        operand(env, rhs, t, fuel, Value::Bool(y)),
    ensures
        truth(yields(env, BinOp::And, lhs, rhs, t, fuel), x && y),
        truth(yields(env, BinOp::Or, lhs, rhs, t, fuel), x || y),
        truth(yields(env, BinOp::Eq, lhs, rhs, t, fuel), x == y),
        truth(yields(env, BinOp::NotEq, lhs, rhs, t, fuel), x != y),
        forall|op: BinOp|
            is_numeric(op) && !(op is Eq) && !(op is NotEq) ==> complains(
                #[trigger] yields(env, op, lhs, rhs, t, fuel),
            ),
{
}

/// The logical operators take truth values alone.
pub proof fn law_logic_takes_truth_values(
    env: Env,
    op: BinOp,
    lhs: Box<Expr>,
    rhs: Box<Expr>,
    t: i64,
    fuel: nat,
    v: Value,
    w: Value,
)
    requires
        op is And || op is Or,
        operand(env, lhs, t, fuel, v),
        operand(env, rhs, t, fuel, w),
        !(v is Bool) || !(w is Bool),
    ensures
        complains(yields(env, op, lhs, rhs, t, fuel)),
{
}

/// Arithmetic and order take numbers alone.
pub proof fn law_arithmetic_takes_numbers(
    env: Env,
    op: BinOp,
    lhs: Box<Expr>,
    rhs: Box<Expr>,
    t: i64,
    fuel: nat,
    v: Value,
    w: Value,
)
    requires
        is_numeric(op),
        !(op is Eq),
        !(op is NotEq),
        operand(env, lhs, t, fuel, v),
        operand(env, rhs, t, fuel, w),
        !(v is Int || v is Float) || !(w is Int || w is Float),
    ensures
        match yields(env, op, lhs, rhs, t, fuel) {
            Err(ExecErrorV::InvalidExpr(_)) => true,
            Err(ExecErrorV::Pending(FloatTaskV::FromInt(i))) => v == Value::Int(i) || w
                == Value::Int(i),
            _ => false,
        },
{
}

/// Equality of texts and of nulls. Null equals nothing else, and what is of different types
/// otherwise cannot be compared, but that numbers can.
pub proof fn law_equality(
    env: Env,
    lhs: Box<Expr>,
    rhs: Box<Expr>,
    t: i64,
    fuel: nat,
    v: Value,
    w: Value,
)
    requires
        operand(env, lhs, t, fuel, v),
        operand(env, rhs, t, fuel, w),
    ensures
        ({
            let (eq, ne) = (
                yields(env, BinOp::Eq, lhs, rhs, t, fuel),
                yields(env, BinOp::NotEq, lhs, rhs, t, fuel),
            );
            &&& v is Null || w is Null ==> truth(eq, v is Null && w is Null) && truth(
                ne,
                !(v is Null && w is Null),
            )
            &&& v is Str && w is Str ==> truth(eq, v->Str_0@ == w->Str_0@) && truth(
                ne,
                v->Str_0@ != w->Str_0@,
            )
            &&& v is Str && !(w is Str) && !(w is Null) ==> complains(eq)
                && complains(ne)
            &&& v is Bool && !(w is Bool) && !(w is Null) ==> complains(eq)
                && complains(ne)
            &&& eq == yields(env, BinOp::Eq, rhs, lhs, t, fuel) || eq is Err
        }),
{
}

/// An operator has no value where an operand has none, and fails where one fails, the left one
/// first.
pub proof fn law_operands_come_first(
    env: Env,
    op: BinOp,
    lhs: Box<Expr>,
    rhs: Box<Expr>,
    t: i64,
    fuel: nat,
)
    ensures
        ({
            let (p, q) = (expr_at(env, &*lhs, t, fuel), expr_at(env, &*rhs, t, fuel));
            let r = yields(env, op, lhs, rhs, t, fuel);
            &&& p is Err ==> r == p
            &&& p is Ok && q is Err ==> r == q
            &&& p is Ok && q is Ok && (p->Ok_0 is None || q->Ok_0 is None) ==> r == Ok::<
                Option<Value>,
                ExecErrorV,
            >(None)
            &&& r == Ok::<Option<Value>, ExecErrorV>(None) ==> p is Ok && q is Ok && (p->Ok_0
                is None || q->Ok_0 is None)
        }),
{
}

/// The signs: the negative of an integer up to the size of a word, the float with the other
/// sign, and the opposite truth value.
pub proof fn law_signs(env: Env, op: UnOp, expr: Box<Expr>, t: i64, fuel: nat)
    ensures
        ({
            let p = expr_at(env, &*expr, t, fuel);
            let r = expr_at(env, &Expr::Unary { op, expr }, t, fuel);
            match p {
                Err(e) => r == p,
                Ok(None) => r == p,
                Ok(Some(Value::Int(x))) => if op is Neg {
                    r matches Ok(Some(Value::Int(i))) && wraps_to(-x, i)
                } else {
                    complains(r)
                },
                Ok(Some(Value::Float(x))) => if op is Neg {
                    r matches Ok(Some(Value::Float(y))) && y != x && x
                        % 0x8000_0000_0000_0000 == y % 0x8000_0000_0000_0000
                } else {
                    complains(r)
                },
                Ok(Some(Value::Bool(b))) => if op is Not {
                    truth(r, !b)
                } else {
                    complains(r)
                },
                Ok(Some(_)) => complains(r),
            }
        }),
{
}

/// The literal names the value; a decimal names the float that the host reads in it.
pub open spec fn named_by(floats: &FloatTable, l: Literal, v: Value) -> bool {
    match l {
        Literal::Null => v is Null,
        Literal::Bool(b) => v == Value::Bool(b),
        Literal::Int(i) => v == Value::Int(i),
        Literal::Str(s) => v matches Value::Str(w) && w@ == s@,
        Literal::Float(s) => v matches Value::Float(bits) && floats.result(
            FloatTaskV::Parse(s@),
        ) == Some(bits),
    }
}

/// A literal is the value that it names; a decimal is the float that the host reads in it.
pub proof fn law_literals(env: Env, l: Literal, t: i64, fuel: nat)
    ensures
        ({
            let r = expr_at(env, &Expr::Lit(l), t, fuel);
            match l {
                Literal::Null => r == Ok::<Option<Value>, ExecErrorV>(Some(Value::Null)),
                Literal::Bool(b) => truth(r, b),
                Literal::Int(i) => number(r, i as int),
                Literal::Str(s) => r matches Ok(Some(Value::Str(w))) && w@ == s@,
                Literal::Float(s) => host_gives(&env.floats, FloatTaskV::Parse(s@), r),
            }
        }),
{
}

} // verus!
