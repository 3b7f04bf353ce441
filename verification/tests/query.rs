//! Operators, aggregates and the evaluation of lenses.

use libtau::ast::{AggFunc, BinOp, Expr, Literal, UnOp};
use libtau::catalog::{would_cycle, Catalog};
use libtau::error::ExecError;
use libtau::eval::Scope;
use libtau::floats::{FloatTable, FloatTask};
use libtau::layers::at_layers;
use libtau::memory::InMemory;
use libtau::model::{Layer, Tau};
use libtau::names::NameMap;
use libtau::ops::{
    agg_avg, agg_sum, apply_binary, apply_unary, numeric_min_max, to_float, values_equal,
};
use libtau::value::{Type, Value};
use std::sync::Arc;

/// A small linear congruential generator, so that the cases are the same in every run.
struct Draw(u64);

impl Draw {
    fn next(&mut self) -> u64 {
        self.0 = self
            .0
            .wrapping_mul(6364136223846793005)
            .wrapping_add(1442695040888963407);
        self.0 >> 16
    }

    fn within(&mut self, lo: i64, hi: i64) -> i64 {
        lo + (self.next() % ((hi - lo) as u64 + 1)) as i64
    }

    fn any(&mut self) -> i64 {
        match self.next() % 8 {
            0 => i64::MIN,
            1 => i64::MAX,
            2 => 0,
            _ => ((self.next() << 32) ^ self.next()) as i64,
        }
    }

    fn flip(&mut self) -> bool {
        self.next() % 2 == 0
    }
}

struct State {
    catalog: Catalog,
    store: InMemory<Value>,
    floats: FloatTable,
}

impl State {
    fn scope(&self) -> Scope<'_> {
        Scope {
            catalog: &self.catalog,
            store: &self.store,
            floats: &self.floats,
            now: 0,
        }
    }
}

fn make_int_state(lens: &str, taus: &[(i64, i64, i64)]) -> State {
    let mut store = InMemory::new();
    if !taus.is_empty() {
        let layer = Layer::new(
            1,
            taus.iter()
                .map(|&(s, e, v)| Tau::new(s, e, Value::Int(v)))
                .collect(),
        );
        store.append(lens, layer);
    }
    let mut catalog = Catalog::new();
    catalog.types.insert(lens, Type::Int);
    State {
        catalog,
        store,
        floats: FloatTable::new(),
    }
}

fn do_task(task: &FloatTask) -> u64 {
    let f = f64::from_bits;
    match task {
        FloatTask::Parse(s) => s.parse::<f64>().unwrap().to_bits(),
        FloatTask::FromInt(i) => (*i as f64).to_bits(),
        FloatTask::Sum(a, b) => (f(*a) + f(*b)).to_bits(),
        FloatTask::Difference(a, b) => (f(*a) - f(*b)).to_bits(),
        FloatTask::Product(a, b) => (f(*a) * f(*b)).to_bits(),
        FloatTask::Quotient(a, b) => (f(*a) / f(*b)).to_bits(),
        FloatTask::Remainder(a, b) => (f(*a) % f(*b)).to_bits(),
    }
}

/// Asks again with every floating-point result that is wanted.
fn with_floats<T>(ask: impl Fn(&FloatTable) -> Result<T, ExecError>) -> Result<T, ExecError> {
    let mut floats = FloatTable::new();
    loop {
        match ask(&floats) {
            Err(ExecError::Pending(task)) => {
                let bits = do_task(&task);
                floats.record(task, bits);
            }
            other => return other,
        }
    }
}

fn binary(op: BinOp, a: Value, b: Value) -> Result<Value, ExecError> {
    with_floats(|floats| apply_binary(op, a.clone(), b.clone(), floats))
}

fn equal(a: &Value, b: &Value) -> Result<bool, ExecError> {
    with_floats(|floats| values_equal(a, b, floats))
}

fn float(x: f64) -> Value {
    Value::Float(x.to_bits())
}

#[test]
fn pbt_apply_unary_neg_float_negates() {
    for v in [0.0, -0.0, 1.5, -2.25, f64::MAX, f64::MIN_POSITIVE, 1e-300] {
        assert_eq!(apply_unary(UnOp::Neg, float(v)).unwrap(), float(-v));
    }
}

#[test]
fn pbt_apply_binary_not_eq_distinct_ints() {
    for seed in 1..=40 {
        let mut tc = Draw(seed);
        let x = tc.within(-100, 100);
        let y = tc.within(-100, 100);
        if x == y {
            continue;
        }
        let r = binary(BinOp::NotEq, Value::Int(x), Value::Int(y)).unwrap();
        assert_eq!(r, Value::Bool(true));
    }
}

#[test]
fn pbt_values_equal_int_float_promotion() {
    for i in [-1000i64, -1, 0, 1, 7, 1000] {
        assert!(equal(&Value::Int(i), &float(i as f64)).unwrap());
    }
    assert!(!equal(&Value::Int(1), &float(1.5)).unwrap());
}

#[test]
fn pbt_values_equal_str_str() {
    for s in ["", "a", "hello world", "\u{e9}\u{1f600}"] {
        assert!(equal(&Value::Str(s.into()), &Value::Str(s.into())).unwrap());
    }
    assert!(!equal(&Value::Str("a".into()), &Value::Str("b".into())).unwrap());
}

#[test]
fn pbt_as_f64_converts_int_and_float() {
    for i in [-1_000_000i64, -3, 0, 42, 1_000_000] {
        let as_f64 = |v: Value| with_floats(|floats| to_float(&v, floats)).unwrap();
        assert_eq!(as_f64(Value::Int(i)), Some((i as f64).to_bits()));
        assert_eq!(as_f64(float(i as f64)), Some((i as f64).to_bits()));
        assert_eq!(as_f64(Value::Bool(true)), None);
        assert_eq!(as_f64(Value::Null), None);
    }
}

#[test]
fn pbt_agg_sum_ints_matches_wrapping_sum() {
    for seed in 1..=40 {
        let mut tc = Draw(seed);
        let vals: Vec<i64> = (0..tc.within(1, 20)).map(|_| tc.within(-1000, 1000)).collect();
        let segs: Vec<(i64, Value)> = vals.iter().map(|&v| (1i64, Value::Int(v))).collect();
        let result = agg_sum(&segs, &FloatTable::new()).unwrap();
        let expected = vals.iter().copied().fold(0i64, |a, b| a.wrapping_add(b));
        assert_eq!(result, Value::Int(expected));
    }
    let huge = vec![(1i64, Value::Int(i64::MAX)), (1i64, Value::Int(1))];
    assert_eq!(
        agg_sum(&huge, &FloatTable::new()).unwrap(),
        Value::Int(i64::MIN)
    );
}

#[test]
fn pbt_agg_avg_equal_durations_is_arithmetic_mean() {
    for seed in 1..=40 {
        let mut tc = Draw(seed);
        let vals: Vec<i64> = (0..tc.within(2, 10)).map(|_| tc.within(-100, 100)).collect();
        let segs: Vec<(i64, Value)> = vals.iter().map(|&v| (1i64, Value::Int(v))).collect();
        let avg = with_floats(|floats| agg_avg(&segs, floats)).unwrap().unwrap();
        let expected = vals.iter().map(|&v| v as f64).sum::<f64>() / vals.len() as f64;
        if let Value::Float(bits) = avg {
            assert!((f64::from_bits(bits) - expected).abs() < 1e-9);
        } else {
            panic!("expected float");
        }
    }
}

#[test]
fn agg_avg_empty_returns_none() {
    assert_eq!(agg_avg(&vec![], &FloatTable::new()).unwrap(), None);
}

#[test]
fn at_layers_empty_returns_none() {
    let none: Vec<Layer<Value>> = vec![];
    assert_eq!(at_layers(&none, 5), None);
}

#[test]
fn integers_wrap_and_divide_toward_zero() {
    assert_eq!(
        binary(BinOp::Add, Value::Int(i64::MAX), Value::Int(1)).unwrap(),
        Value::Int(i64::MIN)
    );
    assert_eq!(
        binary(BinOp::Div, Value::Int(-7), Value::Int(2)).unwrap(),
        Value::Int(-3)
    );
    assert_eq!(
        binary(BinOp::Mod, Value::Int(-7), Value::Int(2)).unwrap(),
        Value::Int(-1)
    );
    assert_eq!(
        binary(BinOp::Div, Value::Int(i64::MIN), Value::Int(-1)),
        Err(ExecError::InvalidExpr("integer overflow".into()))
    );
}

#[test]
fn floats_are_asked_for_and_used() {
    assert_eq!(
        binary(BinOp::Add, float(1.5), Value::Int(2)).unwrap(),
        float(3.5)
    );
    assert_eq!(
        binary(BinOp::Lt, float(1.5), Value::Int(2)).unwrap(),
        Value::Bool(true)
    );
    assert_eq!(
        binary(BinOp::Lt, float(f64::NAN), Value::Int(2)).unwrap(),
        Value::Bool(false)
    );
    assert!(matches!(
        apply_binary(BinOp::Mul, float(2.0), float(3.0), &FloatTable::new()),
        Err(ExecError::Pending(FloatTask::Product(_, _)))
    ));
}

#[test]
fn derivations_that_are_too_deep_stop() {
    let mut state = make_int_state("x", &[(0, 10, 1)]);
    state
        .catalog
        .derived
        .insert("y", Arc::new(Expr::Ident("x".into())));
    assert_eq!(state.scope().eval_lens("y", 5, 1).unwrap(), Some(Value::Int(1)));
    assert_eq!(
        state.scope().eval_lens("y", 5, 0),
        Err(ExecError::InvalidExpr("derivation too deep".into()))
    );
}

#[test]
fn pbt_apply_unary_neg_int_negates() {
    for seed in 1..=40 {
        let mut tc = Draw(seed);
        let v = tc.any();
        assert_eq!(
            apply_unary(UnOp::Neg, Value::Int(v)).unwrap(),
            Value::Int(v.wrapping_neg())
        );
    }
}

#[test]
fn pbt_apply_unary_not_inverts_bool() {
    for seed in 1..=40 {
        let mut tc = Draw(seed);
        let b = tc.flip();
        assert_eq!(
            apply_unary(UnOp::Not, Value::Bool(b)).unwrap(),
            Value::Bool(!b)
        );
    }
}

#[test]
fn pbt_apply_unary_neg_bool_errors() {
    for seed in 1..=40 {
        let mut tc = Draw(seed);
        let b = tc.flip();
        assert!(apply_unary(UnOp::Neg, Value::Bool(b)).is_err());
    }
}

#[test]
fn pbt_apply_unary_not_non_bool_errors() {
    for seed in 1..=40 {
        let mut tc = Draw(seed);
        let v = tc.any();
        assert!(apply_unary(UnOp::Not, Value::Int(v)).is_err());
    }
}

#[test]
fn pbt_apply_binary_int_add_is_wrapping() {
    for seed in 1..=40 {
        let mut tc = Draw(seed);
        let x = tc.any();
        let y = tc.any();
        let r = binary(BinOp::Add, Value::Int(x), Value::Int(y)).unwrap();
        assert_eq!(r, Value::Int(x.wrapping_add(y)));
    }
}

#[test]
fn pbt_apply_binary_int_sub_is_wrapping() {
    for seed in 1..=40 {
        let mut tc = Draw(seed);
        let x = tc.any();
        let y = tc.any();
        let r = binary(BinOp::Sub, Value::Int(x), Value::Int(y)).unwrap();
        assert_eq!(r, Value::Int(x.wrapping_sub(y)));
    }
}

#[test]
fn pbt_apply_binary_int_mul_is_wrapping() {
    for seed in 1..=40 {
        let mut tc = Draw(seed);
        let x = tc.within(-1000, 1000);
        let y = tc.within(-1000, 1000);
        let r = binary(BinOp::Mul, Value::Int(x), Value::Int(y)).unwrap();
        assert_eq!(r, Value::Int(x.wrapping_mul(y)));
    }
}

#[test]
fn apply_binary_int_div_by_zero_errors() {
    assert!(binary(BinOp::Div, Value::Int(1), Value::Int(0)).is_err());
}

#[test]
fn apply_binary_int_mod_by_zero_errors() {
    assert!(binary(BinOp::Mod, Value::Int(5), Value::Int(0)).is_err());
}

#[test]
fn pbt_apply_binary_int_cmp_lt() {
    for seed in 1..=40 {
        let mut tc = Draw(seed);
        let x = tc.within(-1000, 1000);
        let y = tc.within(-1000, 1000);
        let r = binary(BinOp::Lt, Value::Int(x), Value::Int(y)).unwrap();
        assert_eq!(r, Value::Bool(x < y));
    }
}

#[test]
fn pbt_apply_binary_bool_and() {
    for seed in 1..=40 {
        let mut tc = Draw(seed);
        let a = tc.flip();
        let b = tc.flip();
        let r = binary(BinOp::And, Value::Bool(a), Value::Bool(b)).unwrap();
        assert_eq!(r, Value::Bool(a && b));
    }
}

#[test]
fn pbt_apply_binary_bool_or() {
    for seed in 1..=40 {
        let mut tc = Draw(seed);
        let a = tc.flip();
        let b = tc.flip();
        let r = binary(BinOp::Or, Value::Bool(a), Value::Bool(b)).unwrap();
        assert_eq!(r, Value::Bool(a || b));
    }
}

#[test]
fn pbt_apply_binary_and_non_bool_errors() {
    for seed in 1..=40 {
        let mut tc = Draw(seed);
        let v = tc.any();
        assert!(binary(BinOp::And, Value::Int(v), Value::Bool(true)).is_err());
    }
}

#[test]
fn pbt_apply_binary_eq_int_int() {
    for seed in 1..=40 {
        let mut tc = Draw(seed);
        let x = tc.within(-100, 100);
        let r = binary(BinOp::Eq, Value::Int(x), Value::Int(x)).unwrap();
        assert_eq!(r, Value::Bool(true));
    }
}

#[test]
fn values_equal_null_null_is_true() {
    assert!(equal(&Value::Null, &Value::Null).unwrap());
}

#[test]
fn pbt_values_equal_null_anything_is_false() {
    for seed in 1..=40 {
        let mut tc = Draw(seed);
        let v = tc.any();
        assert_eq!(equal(&Value::Null, &Value::Int(v)).unwrap(), false);
        assert_eq!(equal(&Value::Int(v), &Value::Null).unwrap(), false);
    }
}

#[test]
fn pbt_values_equal_bool_bool() {
    for seed in 1..=40 {
        let mut tc = Draw(seed);
        let b = tc.flip();
        assert_eq!(
            equal(&Value::Bool(b), &Value::Bool(b)).unwrap(),
            true
        );
        assert_eq!(
            equal(&Value::Bool(b), &Value::Bool(!b)).unwrap(),
            false
        );
    }
}

#[test]
fn values_equal_str_int_errors() {
    assert!(equal(&Value::Str("x".into()), &Value::Int(1)).is_err());
}

#[test]
fn agg_sum_non_numeric_errors() {
    let segs = vec![(1i64, Value::Str("x".into()))];
    assert!(agg_sum(&segs, &FloatTable::new()).is_err());
}

#[test]
fn pbt_numeric_min_max_ints() {
    for seed in 1..=40 {
        let mut tc = Draw(seed);
        let x = tc.within(-1000, 1000);
        let y = tc.within(-1000, 1000);
        assert_eq!(
            numeric_min_max(Value::Int(x), Value::Int(y), false, &FloatTable::new()).unwrap(),
            Value::Int(x.min(y))
        );
        assert_eq!(
            numeric_min_max(Value::Int(x), Value::Int(y), true, &FloatTable::new()).unwrap(),
            Value::Int(x.max(y))
        );
    }
}

#[test]
fn numeric_min_max_non_numeric_errors() {
    assert!(numeric_min_max(Value::Str("a".into()), Value::Int(1), false, &FloatTable::new()).is_err());
}

#[test]
fn would_cycle_direct_self_reference() {
    let derived = NameMap::new();
    let expr = Expr::Ident("a".into());
    assert!(would_cycle(&derived, "a", &expr));
}

#[test]
fn would_cycle_transitive() {
    let mut derived = NameMap::new();
    derived.insert("b", Arc::new(Expr::Ident("a".into())));
    let expr = Expr::Ident("b".into());
    assert!(would_cycle(&derived, "a", &expr));
}

#[test]
fn would_cycle_acyclic_returns_false() {
    let mut derived = NameMap::new();
    derived.insert("b", Arc::new(Expr::Lit(Literal::Int(1))));
    let expr = Expr::Ident("b".into());
    assert!(!would_cycle(&derived, "a", &expr));
}

#[test]
fn would_cycle_literal_never_cycles() {
    let derived = NameMap::new();
    let expr = Expr::Lit(Literal::Int(42));
    assert!(!would_cycle(&derived, "anything", &expr));
}

#[test]
fn eval_lens_base_returns_value_at_t() {
    let state = make_int_state("x", &[(0, 10, 42)]);
    assert_eq!(state.scope().eval_lens("x", 5, 8).unwrap(), Some(Value::Int(42)));
}

#[test]
fn eval_lens_base_returns_none_outside_interval() {
    let state = make_int_state("x", &[(0, 10, 42)]);
    assert_eq!(state.scope().eval_lens("x", 10, 8).unwrap(), None);
    assert_eq!(state.scope().eval_lens("x", 100, 8).unwrap(), None);
}

#[test]
fn eval_lens_unknown_errors() {
    let state = make_int_state("x", &[(0, 10, 1)]);
    assert!(state.scope().eval_lens("ghost", 5, 8).is_err());
}

#[test]
fn pbt_eval_lens_in_range_vs_out_of_range() {
    for seed in 1..=40 {
        let mut tc = Draw(seed);
        let t_in = tc.within(0, 99);
        let t_out = tc.within(100, 1_000_000);
        let state = make_int_state("x", &[(0, 100, 7)]);
        assert_eq!(state.scope().eval_lens("x", t_in, 8).unwrap(), Some(Value::Int(7)));
        assert_eq!(state.scope().eval_lens("x", t_out, 8).unwrap(), None);
    }
}

#[test]
fn eval_expr_literal_returns_value() {
    let state = make_int_state("x", &[]);
    assert_eq!(
        state.scope().eval_expr(&Expr::Lit(Literal::Int(99)), 0, 8).unwrap(),
        Some(Value::Int(99))
    );
}

#[test]
fn eval_expr_binary_add() {
    let state = make_int_state("x", &[(0, 10, 3)]);
    let expr = Expr::Binary {
        op: BinOp::Add,
        lhs: Box::new(Expr::Ident("x".into())),
        rhs: Box::new(Expr::Lit(Literal::Int(10))),
    };
    assert_eq!(state.scope().eval_expr(&expr, 5, 8).unwrap(), Some(Value::Int(13)));
}

#[test]
fn eval_expr_binary_propagates_none_on_missing_operand() {
    let state = make_int_state("x", &[]);
    let expr = Expr::Binary {
        op: BinOp::Add,
        lhs: Box::new(Expr::Ident("x".into())),
        rhs: Box::new(Expr::Lit(Literal::Int(1))),
    };
    assert_eq!(state.scope().eval_expr(&expr, 5, 8).unwrap(), None);
}

#[test]
fn collect_agg_segments_returns_duration_weighted_list() {
    let state = make_int_state("x", &[(0, 5, 10), (5, 10, 20)]);
    let segs = state.scope().collect_agg_segments("x", 0, 10, 8).unwrap();
    assert_eq!(segs.len(), 2);
    assert!(segs.iter().all(|(d, _)| *d == 5));
}

#[test]
fn eval_agg_count_counts_distinct_segments() {
    let state = make_int_state("x", &[(0, 5, 1), (5, 10, 2), (10, 15, 3)]);
    let r = state.scope().eval_agg("x", AggFunc::Count, 0, 15, 8).unwrap();
    assert_eq!(r, Some(Value::Int(3)));
}

#[test]
fn eval_agg_sum_sums_values() {
    let state = make_int_state("x", &[(0, 5, 3), (5, 10, 7)]);
    let r = state.scope().eval_agg("x", AggFunc::Sum, 0, 10, 8).unwrap();
    assert_eq!(r, Some(Value::Int(10)));
}

#[test]
fn eval_agg_min_max_correct() {
    let state = make_int_state("x", &[(0, 5, 3), (5, 10, 7)]);
    assert_eq!(
        state.scope().eval_agg("x", AggFunc::Min, 0, 10, 8).unwrap(),
        Some(Value::Int(3))
    );
    assert_eq!(
        state.scope().eval_agg("x", AggFunc::Max, 0, 10, 8).unwrap(),
        Some(Value::Int(7))
    );
}

#[test]
fn eval_agg_empty_range_returns_none() {
    let state = make_int_state("x", &[(0, 10, 5)]);
    assert_eq!(state.scope().eval_agg("x", AggFunc::Sum, 20, 30, 8).unwrap(), None);
}

#[test]
fn pbt_at_layers_newest_wins() {
    for seed in 1..=40 {
        let mut tc = Draw(seed);
        let t = tc.within(0, 9);
        let v1 = tc.any();
        let v2 = tc.any();
        let layers = vec![
            Layer::new(1, vec![Tau::new(0, 10, Value::Int(v1))]),
            Layer::new(2, vec![Tau::new(0, 10, Value::Int(v2))]),
        ];
        assert_eq!(at_layers(&layers, t), Some(Value::Int(v2)));
    }
}

#[test]
fn pbt_at_layers_returns_none_outside_all_layers() {
    for seed in 1..=40 {
        let mut tc = Draw(seed);
        let t = tc.within(100, 1_000_000);
        let layers = vec![Layer::new(1, vec![Tau::new(0, 10, Value::Int(1))])];
        assert_eq!(at_layers(&layers, t), None);
    }
}

#[test]
fn integers_are_compared_as_they_are() {
    let none = FloatTable::new();
    let a = Value::Int(9_007_199_254_740_993);
    let b = Value::Int(9_007_199_254_740_992);
    assert_eq!(values_equal(&a, &b, &none), Ok(false));
    assert_eq!(values_equal(&a, &a, &none), Ok(true));
    assert_eq!(equal(&b, &float(9_007_199_254_740_992.0)), Ok(true));
}
