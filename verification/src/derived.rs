//! What derived lenses show depends on no more than what the lenses show that they read.

use crate::ast::{AggFunc, BinOp, Expr, Literal, UnOp};
use crate::clock::clamp;
use crate::error::ExecErrorV;
use crate::eval::{
    agg_over, aggregate, cutoffs, depth, edges, ends, expired, expr_at, expr_bounds, greater, grid,
    joined, kept_at, lens_at, lens_bounds, lesser, range_bounds, range_of, samples, sweep,
    weights, Env, Sampler,
};
use crate::floats::FloatTable;
use crate::layers::{newest, Segment};
use crate::memory::stack_of;
use crate::model::Datum;
use crate::ops::{
    avg_of, binary_of, literal_value_of, min_max_fold, sum_of, total_of, unary_of,
    weighted_sum_of, Weighted,
};
use crate::restart::same_derivations;
use crate::value::{Value, ValueV};
use crate::windows::{steady, steady_lens};
use vstd::prelude::*;

verus! {

/// A value, where there is one, with its text as a sequence of characters.
pub open spec fn seen(v: Option<Value>) -> Option<ValueV> {
    match v {
        Some(v) => Some(v@),
        None => None,
    }
}

/// An answer with its text as a sequence of characters.
pub open spec fn told(r: Result<Option<Value>, ExecErrorV>) -> Result<Option<ValueV>, ExecErrorV> {
    match r {
        Ok(v) => Ok(seen(v)),
        Err(e) => Err(e),
    }
}

spec fn outcome(r: Result<Value, ExecErrorV>) -> Result<ValueV, ExecErrorV> {
    match r {
        Ok(v) => Ok(v@),
        Err(e) => Err(e),
    }
}

/// The segments cover the same stretches with the same values.
pub open spec fn same_segments(a: Seq<Segment<Value>>, b: Seq<Segment<Value>>) -> bool {
    &&& a.len() == b.len()
    &&& forall|i: int|
        #![trigger a[i]]
        #![trigger b[i]]
        0 <= i < a.len() ==> a[i].0 == b[i].0 && a[i].1 == b[i].1 && a[i].2@ == b[i].2@
}

/// Two answers over a window: the same stretches with the same values, or the same error.
pub open spec fn same_windows(
    a: Result<Seq<Segment<Value>>, ExecErrorV>,
    b: Result<Seq<Segment<Value>>, ExecErrorV>,
) -> bool {
    match (a, b) {
        (Ok(x), Ok(y)) => same_segments(x, y),
        (Err(x), Err(y)) => x == y,
        _ => false,
    }
}

/// What the layers of a lens show at a time.
pub open spec fn base_seen(env: Env, lens: Seq<char>, t: i64) -> Option<ValueV> {
    seen(newest(stack_of(env.stacks, lens), seq![t], None))
}

/// The lenses are declared alike, and their layers show the same at every time.
pub open spec fn shown_alike(a: Env, b: Env) -> bool {
    &&& a.types == b.types
    &&& same_derivations(a.derived, b.derived)
    &&& a.ranges == b.ranges
    &&& a.ttl == b.ttl
    &&& a.floats == b.floats
    &&& a.now == b.now
    &&& forall|lens: Seq<char>, t: i64| #[trigger] base_seen(a, lens, t) == base_seen(b, lens, t)
}

/// Every lens has the same layers.
pub open spec fn same_stacks(a: Env, b: Env) -> bool {
    forall|lens: Seq<char>| #[trigger] stack_of(a.stacks, lens) == stack_of(b.stacks, lens)
}

proof fn lemma_literal(l: Literal, m: Literal, floats: &FloatTable)
    requires
        l@ == m@,
    ensures
        outcome(literal_value_of(l, floats)) == outcome(literal_value_of(m, floats)),
{
}

proof fn lemma_unary(op: UnOp, v: Value, w: Value)
    requires
        v@ == w@,
    ensures
        outcome(unary_of(op, v)) == outcome(unary_of(op, w)),
{
    assert(v.kind_name() == w.kind_name());
}

proof fn lemma_binary(op: BinOp, v: Value, x: Value, w: Value, y: Value, floats: &FloatTable)
    requires
        v@ == w@,
        x@ == y@,
    ensures
        outcome(binary_of(op, v, x, floats)) == outcome(binary_of(op, w, y, floats)),
{
    assert(v.kind_name() == w.kind_name());
    assert(x.kind_name() == y.kind_name());
}

/// The stretches and the values are the same.
spec fn same_weights(a: Seq<Weighted>, b: Seq<Weighted>) -> bool {
    &&& a.len() == b.len()
    &&& forall|i: int|
        #![trigger a[i]]
        #![trigger b[i]]
        0 <= i < a.len() ==> a[i].0 == b[i].0 && a[i].1@ == b[i].1@
}

proof fn lemma_fewer_weights(a: Seq<Weighted>, b: Seq<Weighted>)
    requires
        same_weights(a, b),
        a.len() > 0,
    ensures
        same_weights(a.drop_last(), b.drop_last()),
        a.last().0 == b.last().0,
        a.last().1@ == b.last().1@,
        a.last().1.kind_name() == b.last().1.kind_name(),
{
    let n = a.len() - 1;
    assert(a[n].0 == b[n].0 && a[n].1@ == b[n].1@);
    assert forall|i: int|
        #![trigger a.drop_last()[i]]
        #![trigger b.drop_last()[i]]
        0 <= i < n implies a.drop_last()[i].0 == b.drop_last()[i].0 && a.drop_last()[i].1@
        == b.drop_last()[i].1@ by {
        assert(a[i].0 == b[i].0);
    }
}

proof fn lemma_extreme(a: Seq<Weighted>, b: Seq<Weighted>, want_max: bool, floats: &FloatTable)
    requires
        same_weights(a, b),
        a.len() > 0,
    ensures
        outcome(min_max_fold(a, want_max, floats)) == outcome(min_max_fold(b, want_max, floats)),
    decreases a.len(),
{
    lemma_fewer_weights(a, b);
    if a.len() > 1 {
        lemma_extreme(a.drop_last(), b.drop_last(), want_max, floats);
        let (x, y) = (
            min_max_fold(a.drop_last(), want_max, floats),
            min_max_fold(b.drop_last(), want_max, floats),
        );
        if x is Ok {
            assert(x->Ok_0.kind_name() == y->Ok_0.kind_name());
        }
    } else {
        assert(a[0] == a.last() && b[0] == b.last());
    }
}

proof fn lemma_sum(a: Seq<Weighted>, b: Seq<Weighted>, floats: &FloatTable)
    requires
        same_weights(a, b),
    ensures
        outcome(sum_of(a, floats)) == outcome(sum_of(b, floats)),
        weighted_sum_of(a, floats) == weighted_sum_of(b, floats),
        total_of(a) == total_of(b),
    decreases a.len(),
{
    if a.len() > 0 {
        lemma_fewer_weights(a, b);
        lemma_sum(a.drop_last(), b.drop_last(), floats);
    }
}

proof fn lemma_aggregate(
    func: AggFunc,
    a: Seq<Segment<Value>>,
    b: Seq<Segment<Value>>,
    floats: &FloatTable,
)
    requires
        same_segments(a, b),
    ensures
        told(aggregate(func, weights(a), floats)) == told(aggregate(func, weights(b), floats)),
{
    let (p, q) = (weights(a), weights(b));
    assert forall|i: int|
        #![trigger p[i]]
        #![trigger q[i]]
        0 <= i < p.len() implies p[i].0 == q[i].0 && p[i].1@ == q[i].1@ by {
        assert(a[i].0 == b[i].0);
    }
    assert(same_weights(p, q));
    lemma_sum(p, q, floats);
    if p.len() > 0 {
        lemma_extreme(p, q, false, floats);
        lemma_extreme(p, q, true, floats);
    }
    assert(told(avg_of(p, floats)) == told(avg_of(q, floats)));
}

/// A lens whose layers are the same may change at the same times.
proof fn lemma_lens_bounds(a: Env, b: Env, lens: Seq<char>, start: i64, end: i64, fuel: nat)
    requires
        shown_alike(a, b),
        same_stacks(a, b),
    ensures
        lens_bounds(a, lens, start, end, fuel) == lens_bounds(b, lens, start, end, fuel),
    decreases fuel, 0int, 0int,
{
    assert(cutoffs(a, lens, start, end) =~= cutoffs(b, lens, start, end));
    assert(a.derived.contains_key(lens) == b.derived.contains_key(lens)) by {
        assert(a.derived.dom().contains(lens) == b.derived.dom().contains(lens));
    }
    if a.types.contains_key(lens) {
        assert(ends(a, lens, start, end) =~= ends(b, lens, start, end));
    } else if a.derived.contains_key(lens) && fuel > 0 {
        lemma_expr_bounds(
            a,
            b,
            &*a.derived[lens],
            &*b.derived[lens],
            start,
            end,
            (fuel - 1) as nat,
        );
        assert(edges(a, lens, start, end) =~= edges(b, lens, start, end));
    }
}

proof fn lemma_expr_bounds(a: Env, b: Env, d: &Expr, e: &Expr, start: i64, end: i64, fuel: nat)
    requires
        shown_alike(a, b),
        same_stacks(a, b),
        d@ == e@,
    ensures
        expr_bounds(a, d, start, end, fuel) == expr_bounds(b, e, start, end, fuel),
    decreases fuel, 1int, depth(d),
{
    match *d {
        Expr::Lit(_) => {},
        Expr::Ident(name) => {
            lemma_lens_bounds(a, b, name@, start, end, fuel);
        },
        Expr::Unary { expr, .. } => {
            if let Expr::Unary { expr: other, .. } = *e {
                lemma_expr_bounds(a, b, &expr, &other, start, end, fuel);
            }
        },
        Expr::Binary { lhs, rhs, .. } => {
            if let Expr::Binary { lhs: l, rhs: r, .. } = *e {
                lemma_expr_bounds(a, b, &lhs, &l, start, end, fuel);
                lemma_expr_bounds(a, b, &rhs, &r, start, end, fuel);
            }
        },
        Expr::Agg { lens, rel_start, rel_end, .. } => {
            let lo = clamp(start + lesser(rel_start, rel_end));
            let hi = clamp(end + greater(rel_start, rel_end));
            lemma_lens_bounds(a, b, lens@, lo, hi, fuel);
        },
    }
}

/// Lenses that are declared alike read alike.
pub proof fn lemma_steady_alike(a: Env, b: Env, lens: Seq<char>, fuel: nat)
    requires
        shown_alike(a, b),
    ensures
        steady_lens(a, lens, fuel) == steady_lens(b, lens, fuel),
    decreases fuel, 0int, 0int,
{
    assert(a.derived.contains_key(lens) == b.derived.contains_key(lens)) by {
        assert(a.derived.dom().contains(lens) == b.derived.dom().contains(lens));
    }
    if !a.types.contains_key(lens) && a.derived.contains_key(lens) && fuel > 0 {
        lemma_steady_expr(a, b, &*a.derived[lens], &*b.derived[lens], (fuel - 1) as nat);
    }
}

proof fn lemma_steady_expr(a: Env, b: Env, d: &Expr, e: &Expr, fuel: nat)
    requires
        shown_alike(a, b),
        d@ == e@,
    ensures
        steady(a, d, fuel) == steady(b, e, fuel),
    decreases fuel, 1int, depth(d),
{
    match *d {
        Expr::Ident(name) => {
            lemma_steady_alike(a, b, name@, fuel);
        },
        Expr::Unary { expr, .. } => {
            if let Expr::Unary { expr: other, .. } = *e {
                lemma_steady_expr(a, b, &expr, &other, fuel);
            }
        },
        Expr::Binary { lhs, rhs, .. } => {
            if let Expr::Binary { lhs: l, rhs: r, .. } = *e {
                lemma_steady_expr(a, b, &lhs, &l, fuel);
                lemma_steady_expr(a, b, &rhs, &r, fuel);
            }
        },
        _ => {},
    }
}

/// A lens shows the same where the layers that it reads do. Where it reads through an
/// aggregate, the layers are to be the same.
pub proof fn lemma_lens_told(a: Env, b: Env, lens: Seq<char>, t: i64, fuel: nat)
    requires
        shown_alike(a, b),
        steady_lens(a, lens, fuel) || same_stacks(a, b),
    ensures
        told(lens_at(a, lens, t, fuel)) == told(lens_at(b, lens, t, fuel)),
    decreases fuel, 0int, 0int,
{
    assert(a.derived.contains_key(lens) == b.derived.contains_key(lens)) by {
        assert(a.derived.dom().contains(lens) == b.derived.dom().contains(lens));
    }
    assert(expired(a, lens, t) == expired(b, lens, t));
    if a.types.contains_key(lens) {
        assert(base_seen(a, lens, t) == base_seen(b, lens, t));
    } else if a.derived.contains_key(lens) && fuel > 0 {
        lemma_expr_told(a, b, &*a.derived[lens], &*b.derived[lens], t, (fuel - 1) as nat);
    }
}

pub proof fn lemma_expr_told(a: Env, b: Env, d: &Expr, e: &Expr, t: i64, fuel: nat)
    requires
        shown_alike(a, b),
        d@ == e@,
        steady(a, d, fuel) || same_stacks(a, b),
    ensures
        told(expr_at(a, d, t, fuel)) == told(expr_at(b, e, t, fuel)),
    decreases fuel, 3int, depth(d),
{
    match *d {
        Expr::Lit(l) => {
            if let Expr::Lit(m) = *e {
                lemma_literal(l, m, &a.floats);
            }
        },
        Expr::Ident(name) => {
            lemma_lens_told(a, b, name@, t, fuel);
        },
        Expr::Unary { op, expr } => {
            if let Expr::Unary { expr: other, .. } = *e {
                lemma_expr_told(a, b, &expr, &other, t, fuel);
                let (x, y) = (expr_at(a, &expr, t, fuel), expr_at(b, &other, t, fuel));
                if let Ok(Some(v)) = x {
                    lemma_unary(op, v, y->Ok_0->0);
                }
            }
        },
        Expr::Binary { op, lhs, rhs } => {
            if let Expr::Binary { lhs: l, rhs: r, .. } = *e {
                lemma_expr_told(a, b, &lhs, &l, t, fuel);
                lemma_expr_told(a, b, &rhs, &r, t, fuel);
                let (p, q) = (expr_at(a, &lhs, t, fuel), expr_at(b, &l, t, fuel));
                let (x, y) = (expr_at(a, &rhs, t, fuel), expr_at(b, &r, t, fuel));
                if let (Ok(Some(v)), Ok(Some(w))) = (p, x) {
                    lemma_binary(op, v, w, q->Ok_0->0, y->Ok_0->0, &a.floats);
                }
            }
        },
        Expr::Agg { func, lens, rel_start, rel_end } => {
            let start = clamp(t + rel_start);
            let end = clamp(t + rel_end);
            if start < end {
                lemma_agg_told(a, b, lens@, func, start, end, fuel);
            }
        },
    }
}

/// An aggregate of a lens whose layers are the same.
pub proof fn lemma_agg_told(
    a: Env,
    b: Env,
    lens: Seq<char>,
    func: AggFunc,
    start: i64,
    end: i64,
    fuel: nat,
)
    requires
        shown_alike(a, b),
        same_stacks(a, b),
    ensures
        told(agg_over(a, lens, func, start, end, fuel)) == told(
            agg_over(b, lens, func, start, end, fuel),
        ),
    decreases fuel, 2int, 0int,
{
    lemma_lens_bounds(a, b, lens, start, end, fuel);
    if let Ok(bounds) = lens_bounds(a, lens, start, end, fuel) {
        let g = grid(bounds, start, end);
        let k = (g.len() - 1) as nat;
        lemma_samples_told(a, b, lens, g, k, fuel);
        if let (Ok(x), Ok(y)) = (samples(a, lens, g, k, fuel), samples(b, lens, g, k, fuel)) {
            lemma_aggregate(func, x, y, &a.floats);
        }
    }
}

proof fn lemma_samples_told(a: Env, b: Env, lens: Seq<char>, g: Seq<i64>, k: nat, fuel: nat)
    requires
        shown_alike(a, b),
        same_stacks(a, b),
    ensures
        same_windows(samples(a, lens, g, k, fuel), samples(b, lens, g, k, fuel)),
    decreases fuel, 1int, k,
{
    if k > 0 {
        lemma_samples_told(a, b, lens, g, (k - 1) as nat, fuel);
        lemma_lens_told(a, b, lens, g[k - 1], fuel);
    }
}

proof fn lemma_sweep_told(f: Sampler, h: Sampler, g: Seq<i64>, k: nat)
    requires
        forall|t: i64| told(#[trigger] f(t)) == told(h(t)),
    ensures
        same_windows(sweep(f, g, k), sweep(h, g, k)),
    decreases k,
{
    if k > 0 {
        lemma_sweep_told(f, h, g, (k - 1) as nat);
        assert(told(f(g[k - 1])) == told(h(g[k - 1])));
    }
}

proof fn lemma_joined_told(a: Seq<Segment<Value>>, b: Seq<Segment<Value>>)
    requires
        same_segments(a, b),
    ensures
        same_segments(joined(a), joined(b)),
    decreases a.len(),
{
    if a.len() > 0 {
        let n = a.len() - 1;
        assert(a[n].0 == b[n].0);
        assert forall|i: int|
            #![trigger a.drop_last()[i]]
            #![trigger b.drop_last()[i]]
            0 <= i < n implies a.drop_last()[i].0 == b.drop_last()[i].0 && a.drop_last()[i].1
            == b.drop_last()[i].1 && a.drop_last()[i].2@ == b.drop_last()[i].2@ by {
            assert(a[i].0 == b[i].0);
        }
        lemma_joined_told(a.drop_last(), b.drop_last());
        let (x, y) = (joined(a.drop_last()), joined(b.drop_last()));
        if x.len() > 0 {
            let m = x.len() - 1;
            assert(x[m].0 == y[m].0 && x[m].1 == y[m].1 && x[m].2@ == y[m].2@);
            assert(x[m].2.alike(&a[n].2) == y[m].2.alike(&b[n].2));
        }
    }
}

/// A window of a lens whose layers are the same.
pub proof fn lemma_range_told(
    a: Env,
    b: Env,
    lens: Seq<char>,
    start: i64,
    end: i64,
    filter: Option<&Expr>,
    fuel: nat,
)
    requires
        shown_alike(a, b),
        same_stacks(a, b),
    ensures
        same_windows(
            range_of(a, lens, start, end, filter, fuel),
            range_of(b, lens, start, end, filter, fuel),
        ),
{
    lemma_lens_bounds(a, b, lens, start, end, fuel);
    if let Some(e) = filter {
        lemma_expr_bounds(a, b, e, e, start, end, fuel);
    }
    if let Ok(bounds) = range_bounds(a, lens, start, end, filter, fuel) {
        let g = grid(bounds, start, end);
        let (f, h) = (kept_at(a, lens, filter, fuel), kept_at(b, lens, filter, fuel));
        assert forall|t: i64| told(#[trigger] f(t)) == told(h(t)) by {
            lemma_lens_told(a, b, lens, t, fuel);
            if let Some(e) = filter {
                lemma_expr_told(a, b, e, e, t, fuel);
            }
        }
        let k = (g.len() - 1) as nat;
        lemma_sweep_told(f, h, g, k);
        if let (Ok(x), Ok(y)) = (sweep(f, g, k), sweep(h, g, k)) {
            lemma_joined_told(x, y);
        }
    }
}

} // verus!
