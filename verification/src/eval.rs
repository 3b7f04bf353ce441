//! Evaluation of lenses and expressions.
//!
//! A base lens is looked up in its layers. A derived lens is its expression, evaluated
//! anew at each time. Following derivations is bounded by the number of derived lenses.

use crate::ast::{AggFunc, Expr};
use crate::catalog::{collect_deps, lists_exactly, reads, Catalog};
use crate::clock::{add_clamped, clamp, sub_clamped};
use crate::error::{same, same_view, ExecError, ExecErrorV};
use crate::floats::FloatTable;
use crate::layers::{
    among, collect_bounds_from_layers, is_end, lemma_sorted_unique, newest, sort_bounds,
    strictly_ascending, Segment,
};
use crate::memory::{stack_of, InMemory, Stacks};
use crate::model::{Datum, Timestamp};
use crate::names::{listed, NameMap};
use crate::ops::{
    agg_avg, agg_sum, apply_binary, apply_unary, avg_of, binary_of, fold_min_max, literal_value,
    literal_value_of, min_max_fold, sum_of, unary_of, Weighted,
};
use crate::text::owned;
use crate::value::{Type, Value};
use std::sync::Arc;
use vstd::prelude::*;

verus! {

/// All that evaluation looks at.
pub struct Env {
    pub types: Map<Seq<char>, Type>,
    pub derived: Map<Seq<char>, Arc<Expr>>,
    pub ranges: Map<Seq<char>, (i64, i64)>,
    pub ttl: Map<Seq<char>, i64>,
    pub stacks: Stacks<Value>,
    pub floats: FloatTable,
    /// The current time in seconds.
    pub now: i64,
}

/// All that evaluation looks at, by reference.
pub struct Scope<'a> {
    pub catalog: &'a Catalog,
    pub store: &'a InMemory<Value>,
    pub floats: &'a FloatTable,
    pub now: i64,
}

impl<'a> Scope<'a> {
    pub open spec fn env(&self) -> Env {
        Env {
            types: self.catalog.types@,
            derived: self.catalog.derived@,
            ranges: self.catalog.ranges@,
            ttl: self.catalog.ttl@,
            stacks: self.store@,
            floats: *self.floats,
            now: self.now,
        }
    }
}

/// The time before which a lens with a time to live shows nothing.
pub open spec fn cutoff_of(ttl: Map<Seq<char>, i64>, now: i64, lens: Seq<char>) -> Option<i64> {
    if ttl.contains_key(lens) {
        Some(clamp(now - ttl[lens]))
    } else {
        None
    }
}

/// The time before which a lens with a time to live shows nothing.
pub fn ttl_cutoff(ttl: &NameMap<i64>, now: i64, lens: &str) -> (r: Option<Timestamp>)
    ensures
        r == cutoff_of(ttl@, now, lens@),
{
    match ttl.get(lens) {
        Some(secs) => Some(sub_clamped(now, *secs)),
        None => None,
    }
}

/// How deep an expression is nested.
pub open spec fn depth(e: &Expr) -> nat
    decreases e,
{
    match *e {
        Expr::Unary { expr, .. } => 1 + depth(&expr),
        Expr::Binary { lhs, rhs, .. } => 1 + depth(&lhs) + depth(&rhs),
        _ => 0,
    }
}

pub open spec fn expired(env: Env, lens: Seq<char>, t: i64) -> bool {
    cutoff_of(env.ttl, env.now, lens) matches Some(c) && t < c
}

/// The value of a lens at a time: none before its time to live begins, and none outside the
/// window of a derived lens. `fuel` bounds the derivations that are followed.
pub open spec fn lens_at(env: Env, lens: Seq<char>, t: i64, fuel: nat) -> Result<
    Option<Value>,
    ExecErrorV,
>
    decreases fuel, 0int, 0int,
{
    if env.types.contains_key(lens) {
        if expired(env, lens, t) {
            Ok(None)
        } else {
            Ok(newest(stack_of(env.stacks, lens), seq![t], None))
        }
    } else if env.derived.contains_key(lens) {
        if expired(env, lens, t) || env.ranges.contains_key(lens) && !(env.ranges[lens].0 <= t
            < env.ranges[lens].1) {
            Ok(None)
        } else if fuel == 0 {
            Err(too_deep())
        } else {
            expr_at(env, &env.derived[lens], t, (fuel - 1) as nat)
        }
    } else {
        Err(ExecErrorV::UnknownLens(lens))
    }
}

/// The error where more derivations would have to be followed than there are.
pub open spec fn too_deep() -> ExecErrorV {
    ExecErrorV::InvalidExpr("derivation too deep"@)
}

/// The value of an expression at a time. An operand without a value leaves the whole
/// without one.
pub open spec fn expr_at(env: Env, e: &Expr, t: i64, fuel: nat) -> Result<
    Option<Value>,
    ExecErrorV,
>
    decreases fuel, 3int, depth(e),
{
    match *e {
        Expr::Lit(l) => match literal_value_of(l, &env.floats) {
            Ok(v) => Ok(Some(v)),
            Err(err) => Err(err),
        },
        Expr::Ident(name) => lens_at(env, name@, t, fuel),
        Expr::Unary { op, expr } => match expr_at(env, &expr, t, fuel) {
            Ok(Some(v)) => match unary_of(op, v) {
                Ok(v) => Ok(Some(v)),
                Err(err) => Err(err),
            },
            Ok(None) => Ok(None),
            Err(err) => Err(err),
        },
        Expr::Binary { op, lhs, rhs } => match (
            expr_at(env, &lhs, t, fuel),
            expr_at(env, &rhs, t, fuel),
        ) {
            (Err(err), _) => Err(err),
            (_, Err(err)) => Err(err),
            (Ok(Some(a)), Ok(Some(b))) => match binary_of(op, a, b, &env.floats) {
                Ok(v) => Ok(Some(v)),
                Err(err) => Err(err),
            },
            _ => Ok(None),
        },
        Expr::Agg { func, lens, rel_start, rel_end } => {
            let start = clamp(t + rel_start);
            let end = clamp(t + rel_end);
            if start >= end {
                Ok(None)
            } else {
                agg_over(env, lens@, func, start, end, fuel)
            }
        },
    }
}

/// An aggregate of a lens over a window.
pub open spec fn agg_over(
    env: Env,
    lens: Seq<char>,
    func: AggFunc,
    start: i64,
    end: i64,
    fuel: nat,
) -> Result<Option<Value>, ExecErrorV>
    decreases fuel, 2int, 0int,
{
    match lens_bounds(env, lens, start, end, fuel) {
        Err(err) => Err(err),
        Ok(bounds) => {
            let g = grid(bounds, start, end);
            match samples(env, lens, g, (g.len() - 1) as nat, fuel) {
                Err(err) => Err(err),
                Ok(segs) => aggregate(func, weights(segs), &env.floats),
            }
        },
    }
}

/// The values of a lens at the starts of the first `k` stretches between neighbours of `g`.
pub open spec fn samples(env: Env, lens: Seq<char>, g: Seq<i64>, k: nat, fuel: nat) -> Result<
    Seq<Segment<Value>>,
    ExecErrorV,
>
    decreases fuel, 1int, k,
{
    if k == 0 {
        Ok(Seq::empty())
    } else {
        match samples(env, lens, g, (k - 1) as nat, fuel) {
            Err(err) => Err(err),
            Ok(segs) => match lens_at(env, lens, g[k - 1], fuel) {
                Err(err) => Err(err),
                Ok(None) => Ok(segs),
                Ok(Some(v)) => Ok(segs.push((g[k - 1], g[k as int], v))),
            },
        }
    }
}

/// Each segment as the length of its stretch and its value.
pub open spec fn weights(segs: Seq<Segment<Value>>) -> Seq<Weighted> {
    segs.map_values(|s: Segment<Value>| (clamp(s.1 - s.0), s.2))
}

pub open spec fn value_result(r: Result<Value, ExecErrorV>) -> Result<Option<Value>, ExecErrorV> {
    match r {
        Ok(v) => Ok(Some(v)),
        Err(err) => Err(err),
    }
}

/// An aggregate of sampled values; none where nothing was sampled.
pub open spec fn aggregate(func: AggFunc, segs: Seq<Weighted>, floats: &FloatTable) -> Result<
    Option<Value>,
    ExecErrorV,
> {
    if segs.len() == 0 {
        Ok(None)
    } else {
        match func {
            AggFunc::Count => Ok(Some(Value::Int(clamp(segs.len() as int)))),
            AggFunc::Min => value_result(min_max_fold(segs, false, floats)),
            AggFunc::Max => value_result(min_max_fold(segs, true, floats)),
            AggFunc::Sum => value_result(sum_of(segs, floats)),
            AggFunc::Avg => avg_of(segs, floats),
        }
    }
}

/// Where a lens may change within `(start, end)`.
pub open spec fn lens_bounds(env: Env, lens: Seq<char>, start: i64, end: i64, fuel: nat) -> Result<
    Set<i64>,
    ExecErrorV,
>
    decreases fuel, 0int, 0int,
{
    if env.types.contains_key(lens) {
        Ok(ends(env, lens, start, end).union(cutoffs(env, lens, start, end)))
    } else if env.derived.contains_key(lens) {
        if fuel == 0 {
            Err(too_deep())
        } else {
            match expr_bounds(env, &env.derived[lens], start, end, (fuel - 1) as nat) {
                Err(err) => Err(err),
                Ok(inner) => Ok(
                    inner.union(edges(env, lens, start, end)).union(
                        cutoffs(env, lens, start, end),
                    ),
                ),
            }
        }
    } else {
        Err(ExecErrorV::UnknownLens(lens))
    }
}

/// The ends of the values of a base lens that lie within `(start, end)`.
pub open spec fn ends(env: Env, lens: Seq<char>, start: i64, end: i64) -> Set<i64> {
    Set::new(|t: i64| start < t < end && is_end(stack_of(env.stacks, lens), t))
}

/// The ends of the window of a derived lens that lie within `(start, end)`.
pub open spec fn edges(env: Env, lens: Seq<char>, start: i64, end: i64) -> Set<i64> {
    Set::new(
        |t: i64|
            start < t < end && env.ranges.contains_key(lens) && (t == env.ranges[lens].0 || t
                == env.ranges[lens].1),
    )
}

/// The time before which a lens shows nothing, where it lies within `(start, end)`.
pub open spec fn cutoffs(env: Env, lens: Seq<char>, start: i64, end: i64) -> Set<i64> {
    Set::new(|t: i64| start < t < end && cutoff_of(env.ttl, env.now, lens) == Some(t))
}

pub open spec fn lesser(a: i64, b: i64) -> i64 {
    if a <= b {
        a
    } else {
        b
    }
}

pub open spec fn greater(a: i64, b: i64) -> i64 {
    if a >= b {
        a
    } else {
        b
    }
}

/// Where an expression may change within `(start, end)`. An aggregate may change where an
/// end of its lens enters or leaves the moving window.
pub open spec fn expr_bounds(env: Env, e: &Expr, start: i64, end: i64, fuel: nat) -> Result<
    Set<i64>,
    ExecErrorV,
>
    decreases fuel, 1int, depth(e),
{
    match *e {
        Expr::Lit(_) => Ok(Set::empty()),
        Expr::Ident(name) => lens_bounds(env, name@, start, end, fuel),
        Expr::Unary { expr, .. } => expr_bounds(env, &expr, start, end, fuel),
        Expr::Binary { lhs, rhs, .. } => match (
            expr_bounds(env, &lhs, start, end, fuel),
            expr_bounds(env, &rhs, start, end, fuel),
        ) {
            (Err(err), _) => Err(err),
            (_, Err(err)) => Err(err),
            (Ok(a), Ok(b)) => Ok(a.union(b)),
        },
        Expr::Agg { lens, rel_start, rel_end, .. } => {
            let lo = clamp(start + lesser(rel_start, rel_end));
            let hi = clamp(end + greater(rel_start, rel_end));
            let inner = if lo < hi {
                lens_bounds(env, lens@, lo, hi, fuel)
            } else {
                Ok(Set::empty())
            };
            match inner {
                Err(err) => Err(err),
                Ok(ends) => Ok(
                    Set::new(
                        |t: i64|
                            start < t < end && exists|p: i64| #[trigger]
                                ends.contains(p) && (t == clamp(p - rel_start) || t == clamp(
                                    p - rel_end,
                                )),
                    ),
                ),
            }
        },
    }
}

/// The ascending sequence of `start`, `end` and the bounds.
pub open spec fn grid(bounds: Set<i64>, start: i64, end: i64) -> Seq<i64> {
    choose|g: Seq<i64>| on_grid(g, bounds, start, end)
}

pub open spec fn on_grid(g: Seq<i64>, bounds: Set<i64>, start: i64, end: i64) -> bool {
    &&& strictly_ascending(g)
    &&& forall|t: i64| #[trigger] among(g, t) <==> t == start || t == end || bounds.contains(t)
}

pub proof fn lemma_grid(g: Seq<i64>, bounds: Set<i64>, start: i64, end: i64)
    requires
        on_grid(g, bounds, start, end),
    ensures
        grid(bounds, start, end) == g,
{
    lemma_sorted_unique(grid(bounds, start, end), g);
}

impl<'a> Scope<'a> {
    /// The value of a lens at a time.
    pub fn eval_lens(&self, name: &str, t: Timestamp, fuel: usize) -> (r: Result<
        Option<Value>,
        ExecError,
    >)
        ensures
            same(r, lens_at(self.env(), name@, t, fuel as nat)),
        decreases fuel, 0int, 0int,
    {
        let gone: bool = match ttl_cutoff(&self.catalog.ttl, self.now, name) {
            Some(c) => t < c,
            None => false,
        };
        assert(gone == expired(self.env(), name@, t));
        if self.catalog.types.contains_key(name) {
            if gone {
                return Ok(None);
            }
            Ok(self.store.at(name, t))
        } else if let Some(def) = self.catalog.derived.get(name) {
            if gone {
                return Ok(None);
            }
            if let Some(window) = self.catalog.ranges.get(name) {
                if t < window.0 || t >= window.1 {
                    return Ok(None);
                }
            }
            if fuel == 0 {
                return Err(ExecError::InvalidExpr(owned("derivation too deep")));
            }
            self.eval_expr(def, t, fuel - 1)
        } else {
            Err(ExecError::UnknownLens(owned(name)))
        }
    }

    /// The value of an expression at a time.
    pub fn eval_expr(&self, expr: &Expr, t: Timestamp, fuel: usize) -> (r: Result<
        Option<Value>,
        ExecError,
    >)
        ensures
            same(r, expr_at(self.env(), expr, t, fuel as nat)),
        decreases fuel, 3int, depth(expr),
    {
        match expr {
            Expr::Lit(l) => match literal_value(l, self.floats) {
                Ok(v) => Ok(Some(v)),
                Err(err) => Err(err),
            },
            Expr::Ident(name) => self.eval_lens(name.as_str(), t, fuel),
            Expr::Unary { op, expr: inner } => match self.eval_expr(inner, t, fuel) {
                Ok(Some(v)) => match apply_unary(*op, v) {
                    Ok(v) => Ok(Some(v)),
                    Err(err) => Err(err),
                },
                Ok(None) => Ok(None),
                Err(err) => Err(err),
            },
            Expr::Binary { op, lhs, rhs } => {
                let a: Option<Value> = match self.eval_expr(lhs, t, fuel) {
                    Ok(a) => a,
                    Err(err) => {
                        return Err(err);
                    },
                };
                let b: Option<Value> = match self.eval_expr(rhs, t, fuel) {
                    Ok(b) => b,
                    Err(err) => {
                        return Err(err);
                    },
                };
                match (a, b) {
                    (Some(a), Some(b)) => match apply_binary(*op, a, b, self.floats) {
                        Ok(v) => Ok(Some(v)),
                        Err(err) => Err(err),
                    },
                    _ => Ok(None),
                }
            },
            Expr::Agg { func, lens, rel_start, rel_end } => {
                let start: i64 = add_clamped(t, *rel_start);
                let end: i64 = add_clamped(t, *rel_end);
                if start >= end {
                    return Ok(None);
                }
                self.eval_agg(lens.as_str(), *func, start, end, fuel)
            },
        }
    }

    /// An aggregate of a lens over a window.
    pub fn eval_agg(
        &self,
        lens: &str,
        func: AggFunc,
        start: Timestamp,
        end: Timestamp,
        fuel: usize,
    ) -> (r: Result<Option<Value>, ExecError>)
        ensures
            same(r, agg_over(self.env(), lens@, func, start, end, fuel as nat)),
        decreases fuel, 2int, 0int,
    {
        let segments: Vec<Weighted> = match self.collect_agg_segments(lens, start, end, fuel) {
            Ok(segments) => segments,
            Err(err) => {
                return Err(err);
            },
        };
        reduce(func, &segments, self.floats)
    }

    /// The values of a lens over a window, each with the length of its stretch.
    pub fn collect_agg_segments(
        &self,
        lens: &str,
        start: Timestamp,
        end: Timestamp,
        fuel: usize,
    ) -> (r: Result<Vec<Weighted>, ExecError>)
        ensures
            match lens_bounds(self.env(), lens@, start, end, fuel as nat) {
                Err(err) => r is Err && r->Err_0@ == err,
                Ok(bounds) => {
                    let g = grid(bounds, start, end);
                    same_view(
                        r,
                        |v: Vec<Weighted>| v@,
                        match samples(self.env(), lens@, g, (g.len() - 1) as nat, fuel as nat) {
                            Err(err) => Err(err),
                            Ok(segs) => Ok(weights(segs)),
                        },
                    )
                },
            },
        decreases fuel, 1int, 0int,
    {
        let mut raw: Vec<Timestamp> = vec![start, end];
        let ghost before = raw@;
        if let Err(err) = self.collect_lens_bounds(lens, start, end, &mut raw, fuel) {
            return Err(err);
        }
        let g = sort_bounds(raw);
        let ghost env = self.env();
        let ghost bounds = lens_bounds(env, lens@, start, end, fuel as nat)->Ok_0;
        proof {
            lemma_window_members(before, start, end);
            assert(on_grid(g@, bounds, start, end));
            lemma_grid(g@, bounds, start, end);
            lemma_grid_len(g@, bounds, start, end);
        }
        let mut out: Vec<Weighted> = Vec::new();
        let ghost mut segs: Seq<Segment<Value>> = Seq::empty();
        let mut i: usize = 0;
        assert(weights(segs) =~= out@);
        while i < g.len() - 1
            invariant
                g@.len() >= 1,
                i <= g@.len() - 1,
                env == self.env(),
                samples(env, lens@, g@, i as nat, fuel as nat) == Ok::<
                    Seq<Segment<Value>>,
                    ExecErrorV,
                >(segs),
                weights(segs) =~= out@,
                grid(bounds, start, end) == g@,
                lens_bounds(env, lens@, start, end, fuel as nat) == Ok::<Set<i64>, ExecErrorV>(
                    bounds,
                ),
            decreases g@.len() - i,
        {
            let s: i64 = g[i];
            let e: i64 = g[i + 1];
            match self.eval_lens(lens, s, fuel) {
                Err(err) => {
                    proof {
                        lemma_samples_error(
                            env,
                            lens@,
                            g@,
                            (i + 1) as nat,
                            (g@.len() - 1) as nat,
                            fuel as nat,
                        );
                    }
                    return Err(err);
                },
                Ok(None) => {},
                Ok(Some(v)) => {
                    let ghost segs0 = segs;
                    proof {
                        segs = segs.push((s, e, v));
                    }
                    out.push((sub_clamped(e, s), v));
                    assert(weights(segs) =~= out@);
                },
            }
            i = i + 1;
        }
        Ok(out)
    }

    /// Adds where a lens may change within `(start, end)`.
    pub fn collect_lens_bounds(
        &self,
        name: &str,
        start: Timestamp,
        end: Timestamp,
        out: &mut Vec<Timestamp>,
        fuel: usize,
    ) -> (r: Result<(), ExecError>)
        ensures
            added(r, lens_bounds(self.env(), name@, start, end, fuel as nat), old(out)@, final(out)@),
        decreases fuel, 0int, 0int,
    {
        if self.catalog.types.contains_key(name) {
            if let Some(layers) = self.store.layers(name) {
                collect_bounds_from_layers(layers.as_slice(), start, end, out);
            }
            self.push_cutoff(name, start, end, out);
            Ok(())
        } else if let Some(def) = self.catalog.derived.get(name) {
            if fuel == 0 {
                return Err(ExecError::InvalidExpr(owned("derivation too deep")));
            }
            if let Err(err) = self.collect_expr_bounds(def, start, end, out, fuel - 1) {
                return Err(err);
            }
            if let Some(range) = self.catalog.ranges.get(name) {
                push_inside(out, range.0, start, end);
                push_inside(out, range.1, start, end);
            }
            self.push_cutoff(name, start, end, out);
            Ok(())
        } else {
            Err(ExecError::UnknownLens(owned(name)))
        }
    }

    /// Adds the time before which a lens shows nothing, where it lies within `(start, end)`.
    fn push_cutoff(&self, name: &str, start: Timestamp, end: Timestamp, out: &mut Vec<Timestamp>)
        ensures
            forall|t: i64| #[trigger]
                among(final(out)@, t) <==> among(old(out)@, t) || cutoffs(
                    self.env(),
                    name@,
                    start,
                    end,
                ).contains(t),
    {
        if let Some(c) = ttl_cutoff(&self.catalog.ttl, self.now, name) {
            push_inside(out, c, start, end);
        }
    }

    /// Adds where an expression may change within `(start, end)`.
    pub fn collect_expr_bounds(
        &self,
        expr: &Expr,
        start: Timestamp,
        end: Timestamp,
        out: &mut Vec<Timestamp>,
        fuel: usize,
    ) -> (r: Result<(), ExecError>)
        ensures
            added(r, expr_bounds(self.env(), expr, start, end, fuel as nat), old(out)@, final(out)@),
        decreases fuel, 1int, depth(expr),
    {
        match expr {
            Expr::Lit(_) => Ok(()),
            Expr::Ident(name) => self.collect_lens_bounds(name.as_str(), start, end, out, fuel),
            Expr::Unary { expr: inner, .. } => self.collect_expr_bounds(
                inner,
                start,
                end,
                out,
                fuel,
            ),
            Expr::Binary { lhs, rhs, .. } => {
                if let Err(err) = self.collect_expr_bounds(lhs, start, end, out, fuel) {
                    return Err(err);
                }
                self.collect_expr_bounds(rhs, start, end, out, fuel)
            },
            Expr::Agg { lens, rel_start, rel_end, .. } => {
                let lo: i64 = add_clamped(
                    start,
                    if *rel_start <= *rel_end {
                        *rel_start
                    } else {
                        *rel_end
                    },
                );
                let hi: i64 = add_clamped(
                    end,
                    if *rel_start >= *rel_end {
                        *rel_start
                    } else {
                        *rel_end
                    },
                );
                let mut inner: Vec<Timestamp> = Vec::new();
                if lo < hi {
                    if let Err(err) = self.collect_lens_bounds(
                        lens.as_str(),
                        lo,
                        hi,
                        &mut inner,
                        fuel,
                    ) {
                        return Err(err);
                    }
                }
                let ghost ends: Set<i64> = if lo < hi {
                    lens_bounds(self.env(), lens@, lo, hi, fuel as nat)->Ok_0
                } else {
                    Set::empty()
                };
                proof {
                    assert forall|p: i64| #[trigger] among(inner@, p) <==> ends.contains(p) by {}
                }
                shift_bounds(&inner, *rel_start, *rel_end, start, end, out, Ghost(ends));
                Ok(())
            },
        }
    }
}

/// Adds a time where it lies within `(start, end)`.
fn push_inside(out: &mut Vec<Timestamp>, t: Timestamp, start: Timestamp, end: Timestamp)
    ensures
        forall|x: i64| #[trigger]
            among(final(out)@, x) <==> among(old(out)@, x) || (x == t && start < x < end),
{
    let ghost before = out@;
    if start < t && t < end {
        out.push(t);
        assert forall|x: i64| #[trigger] among(out@, x) <==> among(before, x) || x == t by {
            if among(before, x) {
                let k = choose|k: int| 0 <= k < before.len() && #[trigger] before[k] == x;
                assert(out@[k] == x);
            }
            if x == t {
                assert(out@[before.len() as int] == x);
            }
            if among(out@, x) {
                let k = choose|k: int| 0 <= k < out@.len() && #[trigger] out@[k] == x;
                if k < before.len() {
                    assert(before[k] == x);
                }
            }
        }
    }
}

/// Adding bounds to a vector went as the spec function says.
pub open spec fn added(
    r: Result<(), ExecError>,
    bounds: Result<Set<i64>, ExecErrorV>,
    before: Seq<i64>,
    after: Seq<i64>,
) -> bool {
    match bounds {
        Err(err) => r is Err && r->Err_0@ == err,
        Ok(set) => r is Ok && forall|t: i64| #[trigger]
            among(after, t) <==> among(before, t) || set.contains(t),
    }
}

/// Adds the times at which an end enters or leaves the moving window.
fn shift_bounds(
    inner: &Vec<Timestamp>,
    rel_start: i64,
    rel_end: i64,
    start: i64,
    end: i64,
    out: &mut Vec<Timestamp>,
    ends: Ghost<Set<i64>>,
)
    requires
        forall|p: i64| #[trigger] among(inner@, p) <==> ends@.contains(p),
    ensures
        forall|t: i64| #[trigger]
            among(final(out)@, t) <==> among(old(out)@, t) || (start < t < end && exists|p: i64|
                #[trigger]
                ends@.contains(p) && (t == clamp(p - rel_start) || t == clamp(p - rel_end))),
{
    let ghost before = out@;
    let mut i: usize = 0;
    while i < inner.len()
        invariant
            i <= inner@.len(),
            forall|t: i64| #[trigger]
                among(out@, t) <==> among(before, t) || (start < t < end && exists|k: int|
                    0 <= k < i && (t == clamp((#[trigger] inner@[k]) - rel_start) || t == clamp(
                        inner@[k] - rel_end,
                    ))),
        decreases inner@.len() - i,
    {
        let p: i64 = inner[i];
        let enter: i64 = sub_clamped(p, rel_start);
        let leave: i64 = sub_clamped(p, rel_end);
        let ghost o0 = out@;
        if enter > start && enter < end {
            out.push(enter);
        }
        let ghost o1 = out@;
        if leave > start && leave < end {
            out.push(leave);
        }
        proof {
            assert forall|t: i64| #[trigger] among(out@, t) <==> among(before, t) || (start < t < end
                && exists|k: int|
                0 <= k < i + 1 && (t == clamp((#[trigger] inner@[k]) - rel_start) || t == clamp(
                    inner@[k] - rel_end,
                ))) by {
                lemma_among_maybe(o0, enter, enter > start && enter < end, o1, t);
                lemma_among_maybe(o1, leave, leave > start && leave < end, out@, t);
                assert(among(o0, t) <==> among(before, t) || (start < t < end && exists|k: int|
                    0 <= k < i && (t == clamp((#[trigger] inner@[k]) - rel_start) || t == clamp(
                        inner@[k] - rel_end,
                    ))));
                assert(inner@[i as int] == p);
            }
        }
        i = i + 1;
    }
    proof {
        assert forall|t: i64| #[trigger] among(out@, t) <==> among(before, t) || (start < t < end
            && exists|p: i64| #[trigger]
            ends@.contains(p) && (t == clamp(p - rel_start) || t == clamp(p - rel_end))) by {
            if exists|k: int|
                0 <= k < inner@.len() && (t == clamp((#[trigger] inner@[k]) - rel_start) || t
                    == clamp(inner@[k] - rel_end)) {
                let k = choose|k: int|
                    0 <= k < inner@.len() && (t == clamp((#[trigger] inner@[k]) - rel_start) || t
                        == clamp(inner@[k] - rel_end));
                assert(among(inner@, inner@[k]));
                assert(ends@.contains(inner@[k]));
            }
            if exists|p: i64| #[trigger]
                ends@.contains(p) && (t == clamp(p - rel_start) || t == clamp(p - rel_end)) {
                let p = choose|p: i64| #[trigger]
                    ends@.contains(p) && (t == clamp(p - rel_start) || t == clamp(p - rel_end));
                assert(among(inner@, p));
                let k = choose|k: int| 0 <= k < inner@.len() && #[trigger] inner@[k] == p;
                assert(t == clamp(inner@[k] - rel_start) || t == clamp(inner@[k] - rel_end));
            }
        }
    }
}

proof fn lemma_among_maybe(a: Seq<i64>, x: i64, pushed: bool, b: Seq<i64>, t: i64)
    requires
        b == (if pushed {
            a.push(x)
        } else {
            a
        }),
    ensures
        among(b, t) <==> among(a, t) || (pushed && t == x),
{
    if pushed {
        if among(b, t) {
            let k = choose|k: int| 0 <= k < b.len() && #[trigger] b[k] == t;
            if k < a.len() {
                assert(a[k] == t);
            }
        }
        if among(a, t) {
            let k = choose|k: int| 0 <= k < a.len() && #[trigger] a[k] == t;
            assert(b[k] == t);
        }
        assert(b[a.len() as int] == x);
    }
}

proof fn lemma_window_members(w: Seq<i64>, start: i64, end: i64)
    requires
        w == seq![start, end],
    ensures
        forall|t: i64| #[trigger] among(w, t) <==> t == start || t == end,
{
    assert forall|t: i64| #[trigger] among(w, t) <==> t == start || t == end by {
        assert(w[0] == start && w[1] == end);
        if among(w, t) {
            let k = choose|k: int| 0 <= k < w.len() && #[trigger] w[k] == t;
        }
    }
}

proof fn lemma_grid_len(g: Seq<i64>, bounds: Set<i64>, start: i64, end: i64)
    requires
        on_grid(g, bounds, start, end),
    ensures
        g.len() >= 1,
{
    assert(among(g, start));
}

/// An error in the first stretches is the error of all.
proof fn lemma_samples_error(env: Env, lens: Seq<char>, g: Seq<i64>, k: nat, n: nat, fuel: nat)
    requires
        k <= n,
        samples(env, lens, g, k, fuel) is Err,
    ensures
        samples(env, lens, g, n, fuel) == samples(env, lens, g, k, fuel),
    decreases n,
{
    if k < n {
        lemma_samples_error(env, lens, g, k, (n - 1) as nat, fuel);
    }
}

/// An aggregate of sampled values.
pub fn reduce(func: AggFunc, segments: &Vec<Weighted>, floats: &FloatTable) -> (r: Result<
    Option<Value>,
    ExecError,
>)
    ensures
        same(r, aggregate(func, segments@, floats)),
{
    if segments.len() == 0 {
        return Ok(None);
    }
    match func {
        AggFunc::Count => {
            let n: usize = segments.len();
            let count: i64 = if n as u64 <= 9223372036854775807u64 {
                n as i64
            } else {
                i64::MAX
            };
            Ok(Some(Value::Int(count)))
        },
        AggFunc::Min => match fold_min_max(segments, false, floats) {
            Ok(v) => Ok(Some(v)),
            Err(err) => Err(err),
        },
        AggFunc::Max => match fold_min_max(segments, true, floats) {
            Ok(v) => Ok(Some(v)),
            Err(err) => Err(err),
        },
        AggFunc::Sum => match agg_sum(segments, floats) {
            Ok(v) => Ok(Some(v)),
            Err(err) => Err(err),
        },
        AggFunc::Avg => agg_avg(segments, floats),
    }
}

/// Evaluating at a time.
pub type Sampler = spec_fn(i64) -> Result<Option<Value>, ExecErrorV>;

/// What `f` yields at the starts of the first `k` stretches between neighbours of `g`. The
/// first error is the error of all.
pub open spec fn sweep(f: Sampler, g: Seq<i64>, k: nat) -> Result<Seq<Segment<Value>>, ExecErrorV>
    decreases k,
{
    if k == 0 {
        Ok(Seq::empty())
    } else {
        match sweep(f, g, (k - 1) as nat) {
            Err(err) => Err(err),
            Ok(segs) => match f(g[k - 1]) {
                Err(err) => Err(err),
                Ok(None) => Ok(segs),
                Ok(Some(v)) => Ok(segs.push((g[k - 1], g[k as int], v))),
            },
        }
    }
}

proof fn lemma_sweep_error(f: Sampler, g: Seq<i64>, k: nat, n: nat)
    requires
        k <= n,
        sweep(f, g, k) is Err,
    ensures
        sweep(f, g, n) == sweep(f, g, k),
    decreases n,
{
    if k < n {
        lemma_sweep_error(f, g, k, (n - 1) as nat);
    }
}

/// Neighbouring segments that touch and carry equal values made one.
pub open spec fn joined(segs: Seq<Segment<Value>>) -> Seq<Segment<Value>>
    decreases segs.len(),
{
    if segs.len() == 0 {
        Seq::empty()
    } else {
        let front = joined(segs.drop_last());
        let s = segs.last();
        if front.len() > 0 && front.last().1 == s.0 && front.last().2.alike(&s.2) {
            front.drop_last().push((front.last().0, s.1, front.last().2))
        } else {
            front.push(s)
        }
    }
}

/// What `f` yields over the whole of `g`, joined.
pub open spec fn swept(f: Sampler, g: Seq<i64>) -> Result<Seq<Segment<Value>>, ExecErrorV> {
    match sweep(f, g, (g.len() - 1) as nat) {
        Err(err) => Err(err),
        Ok(segs) => Ok(joined(segs)),
    }
}

/// The segments are not empty and follow each other without overlap.
pub open spec fn in_sequence(segs: Seq<Segment<Value>>) -> bool {
    &&& forall|i: int| 0 <= i < segs.len() ==> (#[trigger] segs[i]).0 < segs[i].1
    &&& forall|i: int, j: int|
        #![trigger segs[i], segs[j]]
        0 <= i < j < segs.len() ==> segs[i].1 <= segs[j].0
}

fn push_joined(
    out: &mut Vec<Segment<Value>>,
    s: Timestamp,
    e: Timestamp,
    v: Value,
    segs: Ghost<Seq<Segment<Value>>>,
)
    requires
        old(out)@ == joined(segs@),
    ensures
        final(out)@ == joined(segs@.push((s, e, v))),
        in_sequence(old(out)@) && s < e && (old(out)@.len() > 0 ==> old(out)@.last().1 <= s)
            ==> in_sequence(final(out)@) && final(out)@.last().1 == e,
        final(out)@.len() > 0,
{
    let ghost before = out@;
    assert(segs@.push((s, e, v)).drop_last() =~= segs@);
    let n: usize = out.len();
    let join: bool = if n > 0 {
        out[n - 1].1 == s && out[n - 1].2.is_alike(&v)
    } else {
        false
    };
    if join {
        if let Some(last) = out.pop() {
            out.push((last.0, e, last.2));
            assert(out@ =~= before.drop_last().push((before.last().0, e, before.last().2)));
        }
    } else {
        out.push((s, e, v));
    }
}

/// The value of a lens where a filter, if there is one, holds.
pub open spec fn kept_at(env: Env, lens: Seq<char>, filter: Option<&Expr>, fuel: nat) -> Sampler {
    |t: i64|
        match lens_at(env, lens, t, fuel) {
            Err(err) => Err(err),
            Ok(None) => Ok(None),
            Ok(Some(v)) => match filter {
                None => Ok(Some(v)),
                Some(e) => match expr_at(env, e, t, fuel) {
                    Err(err) => Err(err),
                    Ok(Some(Value::Bool(true))) => Ok(Some(v)),
                    Ok(_) => Ok(None),
                },
            },
        }
}

/// Where a lens, or the filter on it, may change within `(start, end)`.
pub open spec fn range_bounds(
    env: Env,
    lens: Seq<char>,
    start: i64,
    end: i64,
    filter: Option<&Expr>,
    fuel: nat,
) -> Result<Set<i64>, ExecErrorV> {
    match lens_bounds(env, lens, start, end, fuel) {
        Err(err) => Err(err),
        Ok(a) => match filter {
            None => Ok(a),
            Some(e) => match expr_bounds(env, e, start, end, fuel) {
                Err(err) => Err(err),
                Ok(b) => Ok(a.union(b)),
            },
        },
    }
}

/// The values of a lens over a window where a filter, if there is one, holds.
pub open spec fn range_of(
    env: Env,
    lens: Seq<char>,
    start: i64,
    end: i64,
    filter: Option<&Expr>,
    fuel: nat,
) -> Result<Seq<Segment<Value>>, ExecErrorV> {
    match range_bounds(env, lens, start, end, filter, fuel) {
        Err(err) => Err(err),
        Ok(bounds) => swept(kept_at(env, lens, filter, fuel), grid(bounds, start, end)),
    }
}

/// A layer of a base lens that the expression reads.
pub open spec fn read_layer(env: Env, e: &Expr, lens: Seq<char>, i: int) -> bool {
    reads(env.derived, e, lens) && env.types.contains_key(lens) && 0 <= i < stack_of(
        env.stacks,
        lens,
    ).len()
}

/// The smallest window that holds every layer that the expression reads.
pub open spec fn is_domain(env: Env, e: &Expr, d: Option<(i64, i64)>) -> bool {
    match d {
        None => forall|lens: Seq<char>, i: int| !#[trigger] read_layer(env, e, lens, i),
        Some((lo, hi)) => {
            &&& forall|lens: Seq<char>, i: int| #[trigger]
                read_layer(env, e, lens, i) ==> lo <= stack_of(env.stacks, lens)[i].min_start
                    && stack_of(env.stacks, lens)[i].max_end <= hi
            &&& exists|lens: Seq<char>, i: int| #[trigger]
                read_layer(env, e, lens, i) && stack_of(env.stacks, lens)[i].min_start == lo
            &&& exists|lens: Seq<char>, i: int| #[trigger]
                read_layer(env, e, lens, i) && stack_of(env.stacks, lens)[i].max_end == hi
        },
    }
}

/// The extents of the layers that the expression reads.
pub open spec fn extents(env: Env, e: &Expr) -> Set<(i64, i64)> {
    Set::new(
        |x: (i64, i64)|
            exists|lens: Seq<char>, i: int| #[trigger]
                read_layer(env, e, lens, i) && x == (
                    stack_of(env.stacks, lens)[i].min_start,
                    stack_of(env.stacks, lens)[i].max_end,
                ),
    )
}

/// The smallest window that holds every extent.
pub open spec fn is_hull(all: Set<(i64, i64)>, d: Option<(i64, i64)>) -> bool {
    match d {
        None => forall|x: (i64, i64)| !#[trigger] all.contains(x),
        Some((lo, hi)) => {
            &&& forall|x: (i64, i64)| #[trigger] all.contains(x) ==> lo <= x.0 && x.1 <= hi
            &&& exists|x: (i64, i64)| #[trigger] all.contains(x) && x.0 == lo
            &&& exists|x: (i64, i64)| #[trigger] all.contains(x) && x.1 == hi
        },
    }
}

/// The smallest window that holds every layer that the expression reads; none where it reads
/// none.
pub open spec fn domain_of(env: Env, e: &Expr) -> Option<(i64, i64)> {
    choose|d: Option<(i64, i64)>| is_hull(extents(env, e), d)
}

proof fn lemma_domain(env: Env, e: &Expr, d: Option<(i64, i64)>)
    requires
        is_domain(env, e, d),
    ensures
        domain_of(env, e) == d,
{
    let all = extents(env, e);
    assert forall|lens: Seq<char>, i: int| #[trigger] read_layer(env, e, lens, i) implies
        all.contains(
        (stack_of(env.stacks, lens)[i].min_start, stack_of(env.stacks, lens)[i].max_end),
    ) by {}
    if let Some((lo, hi)) = d {
        let (la, ia) = choose|lens: Seq<char>, i: int| #[trigger]
            read_layer(env, e, lens, i) && stack_of(env.stacks, lens)[i].min_start == lo;
        let (lb, ib) = choose|lens: Seq<char>, i: int| #[trigger]
            read_layer(env, e, lens, i) && stack_of(env.stacks, lens)[i].max_end == hi;
        let a = stack_of(env.stacks, la)[ia];
        let b = stack_of(env.stacks, lb)[ib];
        assert(all.contains((a.min_start, a.max_end)) && all.contains((b.min_start, b.max_end)));
    }
    assert(is_hull(all, d));
    let c = domain_of(env, e);
    assert(is_hull(all, c));
    if let Some((lo, hi)) = c {
        let x = choose|x: (i64, i64)| #[trigger] all.contains(x) && x.0 == lo;
        let y = choose|y: (i64, i64)| #[trigger] all.contains(y) && y.1 == hi;
        assert(all.contains(x) && all.contains(y));
        if let Some((lo2, hi2)) = d {
            let x2 = choose|x: (i64, i64)| #[trigger] all.contains(x) && x.0 == lo2;
            let y2 = choose|y: (i64, i64)| #[trigger] all.contains(y) && y.1 == hi2;
            assert(all.contains(x2) && all.contains(y2));
        }
    } else if let Some((lo2, hi2)) = d {
        let x2 = choose|x: (i64, i64)| #[trigger] all.contains(x) && x.0 == lo2;
        assert(all.contains(x2));
    }
}

/// The value of an expression at each time.
pub open spec fn expr_sampler(env: Env, e: &Expr, fuel: nat) -> Sampler {
    |t: i64| expr_at(env, e, t, fuel)
}

/// The values of an expression over a window, or over all that it reads where no window is
/// given.
pub open spec fn materialised(env: Env, e: &Expr, range: Option<(i64, i64)>, fuel: nat) -> Result<
    Seq<Segment<Value>>,
    ExecErrorV,
> {
    let window = match range {
        Some(w) => Some(w),
        None => domain_of(env, e),
    };
    match window {
        None => Ok(Seq::empty()),
        Some((start, end)) => if start >= end {
            Ok(Seq::empty())
        } else {
            match expr_bounds(env, e, start, end, fuel) {
                Err(err) => Err(err),
                Ok(bounds) => swept(expr_sampler(env, e, fuel), grid(bounds, start, end)),
            }
        },
    }
}

impl<'a> Scope<'a> {
    /// Where a lens, or the filter on it, may change over a window, in ascending order and
    /// with the ends of the window.
    pub fn collect_range_bounds(
        &self,
        name: &str,
        start: Timestamp,
        end: Timestamp,
        filter: Option<&Expr>,
        fuel: usize,
    ) -> (r: Result<Vec<Timestamp>, ExecError>)
        ensures
            match range_bounds(self.env(), name@, start, end, filter, fuel as nat) {
                Err(err) => r is Err && r->Err_0@ == err,
                Ok(bounds) => r is Ok && r->Ok_0@ == grid(bounds, start, end) && r->Ok_0@.len() >= 1,
            },
    {
        let mut raw: Vec<Timestamp> = vec![start, end];
        let ghost before = raw@;
        if let Err(err) = self.collect_lens_bounds(name, start, end, &mut raw, fuel) {
            return Err(err);
        }
        if let Some(e) = filter {
            if let Err(err) = self.collect_expr_bounds(e, start, end, &mut raw, fuel) {
                return Err(err);
            }
        }
        let g = sort_bounds(raw);
        proof {
            let bounds = range_bounds(self.env(), name@, start, end, filter, fuel as nat)->Ok_0;
            lemma_window_members(before, start, end);
            assert(on_grid(g@, bounds, start, end));
            lemma_grid(g@, bounds, start, end);
            lemma_grid_len(g@, bounds, start, end);
        }
        Ok(g)
    }

    /// The values of a lens over the stretches between the bounds where a filter holds.
    pub fn build_range_segments(
        &self,
        name: &str,
        bounds: &[Timestamp],
        filter: Option<&Expr>,
        fuel: usize,
    ) -> (r: Result<Vec<Segment<Value>>, ExecError>)
        requires
            bounds@.len() >= 1,
        ensures
            same_view(
                r,
                |v: Vec<Segment<Value>>| v@,
                swept(kept_at(self.env(), name@, filter, fuel as nat), bounds@),
            ),
    {
        let ghost f = kept_at(self.env(), name@, filter, fuel as nat);
        let ghost mut segs: Seq<Segment<Value>> = Seq::empty();
        let mut out: Vec<Segment<Value>> = Vec::new();
        let mut i: usize = 0;
        assert(out@ =~= joined(segs));
        while i < bounds.len() - 1
            invariant
                bounds@.len() >= 1,
                i <= bounds@.len() - 1,
                f == kept_at(self.env(), name@, filter, fuel as nat),
                sweep(f, bounds@, i as nat) == Ok::<Seq<Segment<Value>>, ExecErrorV>(segs),
                out@ == joined(segs),
            decreases bounds@.len() - i,
        {
            let s: i64 = bounds[i];
            let e: i64 = bounds[i + 1];
            let value: Result<Option<Value>, ExecError> = match self.eval_lens(name, s, fuel) {
                Ok(Some(v)) => match filter {
                    None => Ok(Some(v)),
                    Some(cond) => match self.eval_expr(cond, s, fuel) {
                        Ok(Some(Value::Bool(true))) => Ok(Some(v)),
                        Ok(_) => Ok(None),
                        Err(err) => Err(err),
                    },
                },
                Ok(None) => Ok(None),
                Err(err) => Err(err),
            };
            assert(same(value, f(s)));
            match value {
                Err(err) => {
                    proof {
                        lemma_sweep_error(
                            f,
                            bounds@,
                            (i + 1) as nat,
                            (bounds@.len() - 1) as nat,
                        );
                    }
                    return Err(err);
                },
                Ok(None) => {},
                Ok(Some(v)) => {
                    push_joined(&mut out, s, e, v, Ghost(segs));
                    proof {
                        segs = segs.push((s, e, v));
                    }
                },
            }
            i = i + 1;
        }
        Ok(out)
    }

    /// The smallest window that holds every layer that the expression reads.
    pub fn expr_domain(&self, expr: &Expr) -> (r: Option<(Timestamp, Timestamp)>)
        ensures
            r == domain_of(self.env(), expr),
    {
        let deps = collect_deps(&self.catalog.derived, expr);
        let ghost env = self.env();
        let mut found: Option<(Timestamp, Timestamp)> = None;
        let mut i: usize = 0;
        while i < deps.len()
            invariant
                i <= deps@.len(),
                env == self.env(),
                lists_exactly(deps@, |n: Seq<char>| reads(env.derived, expr, n)),
                covers_layers(env, expr, deps@, i as int, 0, found),
            decreases deps@.len() - i,
        {
            let name = deps[i].as_str();
            proof {
                assert(listed(deps@, name@));
            }
            if self.catalog.types.contains_key(name) {
                if let Some(layers) = self.store.layers(name) {
                    let mut j: usize = 0;
                    while j < layers.len()
                        invariant
                            j <= layers@.len(),
                            i < deps@.len(),
                            env == self.env(),
                            name@ == deps@[i as int]@,
                            reads(env.derived, expr, name@),
                            env.types.contains_key(name@),
                            layers@ == stack_of(env.stacks, name@),
                            covers_layers(env, expr, deps@, i as int, j as int, found),
                        decreases layers@.len() - j,
                    {
                        let lo: i64 = layers[j].min_start;
                        let hi: i64 = layers[j].max_end;
                        let ghost before = found;
                        found = match found {
                            None => Some((lo, hi)),
                            Some((a, b)) => Some(
                                (
                                    if a <= lo {
                                        a
                                    } else {
                                        lo
                                    },
                                    if b >= hi {
                                        b
                                    } else {
                                        hi
                                    },
                                ),
                            ),
                        };
                        proof {
                            lemma_covers_one(env, expr, deps@, i as int, j as int, before, found);
                        }
                        j = j + 1;
                    }
                }
            }
            proof {
                lemma_covers_next(
                    env,
                    expr,
                    deps@,
                    i as int,
                    stack_of(env.stacks, name@).len() as int,
                    found,
                );
            }
            i = i + 1;
        }
        proof {
            assert forall|lens: Seq<char>, k: int| #[trigger]
                read_layer(env, expr, lens, k) implies found matches Some((lo, hi)) && lo
                <= stack_of(env.stacks, lens)[k].min_start && stack_of(env.stacks, lens)[k].max_end
                <= hi by {
                assert(listed(deps@, lens));
                let p = choose|p: int| 0 <= p < deps@.len() && (#[trigger] deps@[p])@ == lens;
                assert(met_layer(env, expr, deps@, deps@.len() as int, 0, p, k));
            }
            assert(is_domain(env, expr, found));
            lemma_domain(env, expr, found);
        }
        found
    }

    /// The values of an expression over a window, or over all that it reads where no window
    /// is given.
    pub fn materialise_expr(
        &self,
        expr: &Expr,
        range: Option<(Timestamp, Timestamp)>,
        fuel: usize,
    ) -> (r: Result<Vec<Segment<Value>>, ExecError>)
        ensures
            same_view(
                r,
                |v: Vec<Segment<Value>>| v@,
                materialised(self.env(), expr, range, fuel as nat),
            ),
            r matches Ok(segs) ==> in_sequence(segs@),
    {
        let window: Option<(Timestamp, Timestamp)> = match range {
            Some(w) => Some(w),
            None => self.expr_domain(expr),
        };
        let (start, end): (i64, i64) = match window {
            Some(w) => w,
            None => {
                return Ok(Vec::new());
            },
        };
        if start >= end {
            return Ok(Vec::new());
        }
        let mut raw: Vec<Timestamp> = vec![start, end];
        let ghost before = raw@;
        if let Err(err) = self.collect_expr_bounds(expr, start, end, &mut raw, fuel) {
            return Err(err);
        }
        let bounds = sort_bounds(raw);
        let ghost f = expr_sampler(self.env(), expr, fuel as nat);
        proof {
            let set = expr_bounds(self.env(), expr, start, end, fuel as nat)->Ok_0;
            lemma_window_members(before, start, end);
            assert(on_grid(bounds@, set, start, end));
            lemma_grid(bounds@, set, start, end);
            lemma_grid_len(bounds@, set, start, end);
        }
        let ghost mut segs: Seq<Segment<Value>> = Seq::empty();
        let mut out: Vec<Segment<Value>> = Vec::new();
        let mut i: usize = 0;
        assert(out@ =~= joined(segs));
        while i < bounds.len() - 1
            invariant
                bounds@.len() >= 1,
                i <= bounds@.len() - 1,
                f == expr_sampler(self.env(), expr, fuel as nat),
                sweep(f, bounds@, i as nat) == Ok::<Seq<Segment<Value>>, ExecErrorV>(segs),
                out@ == joined(segs),
                strictly_ascending(bounds@),
                in_sequence(out@),
                out@.len() > 0 ==> out@.last().1 <= bounds@[i as int],
                materialised(self.env(), expr, range, fuel as nat) == swept(f, bounds@),
            decreases bounds@.len() - i,
        {
            let s: i64 = bounds[i];
            let e: i64 = bounds[i + 1];
            assert(s < e);
            match self.eval_expr(expr, s, fuel) {
                Err(err) => {
                    proof {
                        assert(f(s) == Err::<Option<Value>, ExecErrorV>(err@));
                        lemma_sweep_error(
                            f,
                            bounds@,
                            (i + 1) as nat,
                            (bounds@.len() - 1) as nat,
                        );
                    }
                    return Err(err);
                },
                Ok(None) => {
                    assert(f(s) == Ok::<Option<Value>, ExecErrorV>(None));
                },
                Ok(Some(v)) => {
                    push_joined(&mut out, s, e, v, Ghost(segs));
                    proof {
                        assert(f(s) == Ok::<Option<Value>, ExecErrorV>(Some(v)));
                        segs = segs.push((s, e, v));
                    }
                },
            }
            i = i + 1;
        }
        Ok(out)
    }
}

/// A layer among those of the first `i` lenses, or the first `j` of the lens after them.
spec fn met_layer(
    env: Env,
    e: &Expr,
    deps: Seq<String>,
    i: int,
    j: int,
    p: int,
    k: int,
) -> bool {
    0 <= p < deps.len() && (p < i || (p == i && k < j)) && read_layer(env, e, deps[p]@, k)
}

spec fn covers_layers(
    env: Env,
    e: &Expr,
    deps: Seq<String>,
    i: int,
    j: int,
    found: Option<(i64, i64)>,
) -> bool {
    match found {
        None => forall|p: int, k: int| !#[trigger] met_layer(env, e, deps, i, j, p, k),
        Some((lo, hi)) => {
            &&& forall|p: int, k: int| #[trigger]
                met_layer(env, e, deps, i, j, p, k) ==> lo <= stack_of(
                    env.stacks,
                    deps[p]@,
                )[k].min_start && stack_of(env.stacks, deps[p]@)[k].max_end <= hi
            &&& exists|lens: Seq<char>, k: int| #[trigger]
                read_layer(env, e, lens, k) && stack_of(env.stacks, lens)[k].min_start == lo
            &&& exists|lens: Seq<char>, k: int| #[trigger]
                read_layer(env, e, lens, k) && stack_of(env.stacks, lens)[k].max_end == hi
        },
    }
}

proof fn lemma_covers_one(
    env: Env,
    e: &Expr,
    deps: Seq<String>,
    i: int,
    j: int,
    before: Option<(i64, i64)>,
    after: Option<(i64, i64)>,
)
    requires
        0 <= i < deps.len(),
        read_layer(env, e, deps[i]@, j),
        covers_layers(env, e, deps, i, j, before),
        ({
            let l = stack_of(env.stacks, deps[i]@)[j];
            after == match before {
                None => Some((l.min_start, l.max_end)),
                Some((a, b)) => Some((lesser(a, l.min_start), greater(b, l.max_end))),
            }
        }),
    ensures
        covers_layers(env, e, deps, i, j + 1, after),
{
    assert forall|p: int, k: int| #[trigger]
        met_layer(env, e, deps, i, j + 1, p, k) implies met_layer(env, e, deps, i, j, p, k) || (p
        == i && k == j) by {}
}

proof fn lemma_covers_next(
    env: Env,
    e: &Expr,
    deps: Seq<String>,
    i: int,
    j: int,
    found: Option<(i64, i64)>,
)
    requires
        0 <= i < deps.len(),
        covers_layers(env, e, deps, i, j, found) || (covers_layers(env, e, deps, i, 0, found) && (
        !env.types.contains_key(deps[i]@) || stack_of(env.stacks, deps[i]@).len() == 0)),
        j == stack_of(env.stacks, deps[i]@).len(),
    ensures
        covers_layers(env, e, deps, i + 1, 0, found),
{
    assert forall|p: int, k: int| #[trigger]
        met_layer(env, e, deps, i + 1, 0, p, k) implies met_layer(env, e, deps, i, j, p, k) by {}
    assert forall|p: int, k: int| #[trigger]
        met_layer(env, e, deps, i + 1, 0, p, k) && (!env.types.contains_key(deps[i]@)
        || stack_of(env.stacks, deps[i]@).len() == 0) implies met_layer(
        env,
        e,
        deps,
        i,
        0,
        p,
        k,
    ) by {}
}

} // verus!
