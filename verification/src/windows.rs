//! What windows show: the answer over a window is the answer at each time in it.

use crate::ast::Expr;
use crate::error::ExecErrorV;
use crate::eval::{
    cutoff_of, cutoffs, depth, edges, ends, expr_at, expr_bounds, expr_sampler, grid, joined,
    kept_at, lens_at, lens_bounds,
    materialised, on_grid, range_of, sweep, swept, Env, Sampler,
};
use crate::inputs::Inputs;
use crate::layers::{
    agree, among, is_end, lemma_probe_constant, newest, probe, stack_wf, strictly_ascending, traces,
    Segment,
};
use crate::memory::stack_of;
use crate::model::Datum;
use crate::query::{at_of, range_answered, window_of};
use crate::state::{is_single_axis, StateV};
use crate::value::Value;
use vstd::prelude::*;

verus! {

/// A time lies in a segment.
pub open spec fn in_segment(segs: Seq<Segment<Value>>, i: int, t: i64) -> bool {
    0 <= i < segs.len() && segs[i].0 <= t < segs[i].1
}

/// The segments show what `f` yields at each time from `start` up to `end`: its value, or
/// one that counts as equal, where it has one, and nothing where it has none.
pub open spec fn shows(segs: Seq<Segment<Value>>, f: Sampler, start: i64, end: i64) -> bool {
    forall|t: i64|
        start <= t < end ==> (#[trigger] f(t)) is Ok && match f(t)->Ok_0 {
            Some(v) => exists|i: int| #[trigger]
                in_segment(segs, i, t) && agree(Some(segs[i].2), Some(v)),
            None => forall|i: int| !#[trigger] in_segment(segs, i, t),
        }
}

/// Two answers to a lookup: the same value, one that counts as equal, or the same error.
pub open spec fn answers_agree(
    a: Result<Option<Value>, ExecErrorV>,
    b: Result<Option<Value>, ExecErrorV>,
) -> bool {
    match (a, b) {
        (Ok(x), Ok(y)) => agree(x, y),
        (Err(x), Err(y)) => x == y,
        _ => false,
    }
}

/// Neither the expression nor what it reads holds an aggregate.
pub open spec fn steady(env: Env, e: &Expr, fuel: nat) -> bool
    decreases fuel, 1int, depth(e),
{
    match *e {
        Expr::Lit(_) => true,
        Expr::Ident(name) => steady_lens(env, name@, fuel),
        Expr::Unary { expr, .. } => steady(env, &expr, fuel),
        Expr::Binary { lhs, rhs, .. } => steady(env, &lhs, fuel) && steady(env, &rhs, fuel),
        Expr::Agg { .. } => false,
    }
}

/// The same of a lens.
pub open spec fn steady_lens(env: Env, lens: Seq<char>, fuel: nat) -> bool
    decreases fuel, 0int, 0int,
{
    !env.types.contains_key(lens) && env.derived.contains_key(lens) && fuel > 0 ==> steady(
        env,
        &*env.derived[lens],
        (fuel - 1) as nat,
    )
}

/// Every stack that evaluation sees is well formed.
pub open spec fn env_wf(env: Env) -> bool {
    forall|lens: Seq<char>| #[trigger] stack_wf(stack_of(env.stacks, lens))
}

/// Between two neighbouring bounds a base lens does not change.
pub proof fn lemma_base_constant(env: Env, lens: Seq<char>, start: i64, end: i64, a: i64, b: i64, t: i64)
    requires
        stack_wf(stack_of(env.stacks, lens)),
        start <= a <= t < b <= end,
        forall|x: i64|
            #![trigger is_end(stack_of(env.stacks, lens), x)]
            start < x < end && is_end(stack_of(env.stacks, lens), x) ==> !(a < x < b),
    ensures
        newest(stack_of(env.stacks, lens), seq![t], None) == newest(
            stack_of(env.stacks, lens),
            seq![a],
            None,
        ),
{
    let stack = stack_of(env.stacks, lens);
    assert forall|l: int, k: int|
        #![trigger stack[l].taus@[k]]
        0 <= l < stack.len() && 0 <= k < stack[l].taus@.len() implies {
        &&& !(a < stack[l].taus@[k].coords@[0].lo < b)
        &&& !(a < stack[l].taus@[k].coords@[0].hi < b)
    } by {
        assert(is_end(stack, stack[l].taus@[k].coords@[0].lo));
        assert(is_end(stack, stack[l].taus@[k].coords@[0].hi));
    }
    lemma_probe_constant(stack, Seq::empty(), None, a, b, t);
    assert(seq![t] + Seq::<i64>::empty() =~= seq![t]);
    assert(seq![a] + Seq::<i64>::empty() =~= seq![a]);
}

/// Between two neighbouring bounds a steady lens does not change.
pub proof fn lemma_lens_constant(
    env: Env,
    lens: Seq<char>,
    start: i64,
    end: i64,
    a: i64,
    b: i64,
    t: i64,
    fuel: nat,
)
    requires
        env_wf(env),
        steady_lens(env, lens, fuel),
        start <= a <= t < b <= end,
        lens_bounds(env, lens, start, end, fuel) is Ok,
        forall|x: i64|
            #![trigger lens_bounds(env, lens, start, end, fuel)->Ok_0.contains(x)]
            lens_bounds(env, lens, start, end, fuel)->Ok_0.contains(x) ==> !(a < x < b),
    ensures
        lens_at(env, lens, t, fuel) == lens_at(env, lens, a, fuel),
    decreases fuel, 0int, 0int,
{
    let bounds = lens_bounds(env, lens, start, end, fuel)->Ok_0;
    if let Some(c) = cutoff_of(env.ttl, env.now, lens) {
        assert(cutoffs(env, lens, start, end).contains(c) <==> start < c < end);
        assert((env.types.contains_key(lens) || env.derived.contains_key(lens)) && start < c < end
            ==> bounds.contains(c));
    }
    if env.types.contains_key(lens) {
        assert forall|x: i64|
            #![trigger is_end(stack_of(env.stacks, lens), x)]
            start < x < end && is_end(stack_of(env.stacks, lens), x) implies !(a < x < b) by {
            assert(ends(env, lens, start, end).contains(x));
            assert(bounds.contains(x));
        }
        assert(stack_wf(stack_of(env.stacks, lens)));
        lemma_base_constant(env, lens, start, end, a, b, t);
    } else if env.derived.contains_key(lens) && fuel > 0 {
        let m = (fuel - 1) as nat;
        let inner = expr_bounds(env, &*env.derived[lens], start, end, m)->Ok_0;
        assert forall|x: i64| #[trigger] inner.contains(x) implies !(a < x < b) by {
            assert(bounds.contains(x));
        }
        if env.ranges.contains_key(lens) {
            let (lo, hi) = env.ranges[lens];
            assert(edges(env, lens, start, end).contains(lo) <==> start < lo < end);
            assert(edges(env, lens, start, end).contains(hi) <==> start < hi < end);
            assert(start < lo < end ==> bounds.contains(lo));
            assert(start < hi < end ==> bounds.contains(hi));
        }
        lemma_expr_constant(env, &*env.derived[lens], start, end, a, b, t, m);
    }
}

/// Between two neighbouring bounds a steady expression does not change.
pub proof fn lemma_expr_constant(
    env: Env,
    e: &Expr,
    start: i64,
    end: i64,
    a: i64,
    b: i64,
    t: i64,
    fuel: nat,
)
    requires
        env_wf(env),
        steady(env, e, fuel),
        start <= a <= t < b <= end,
        expr_bounds(env, e, start, end, fuel) is Ok,
        forall|x: i64|
            #![trigger expr_bounds(env, e, start, end, fuel)->Ok_0.contains(x)]
            expr_bounds(env, e, start, end, fuel)->Ok_0.contains(x) ==> !(a < x < b),
    ensures
        expr_at(env, e, t, fuel) == expr_at(env, e, a, fuel),
    decreases fuel, 1int, depth(e),
{
    let bounds = expr_bounds(env, e, start, end, fuel)->Ok_0;
    match *e {
        Expr::Lit(_) => {},
        Expr::Ident(name) => {
            lemma_lens_constant(env, name@, start, end, a, b, t, fuel);
        },
        Expr::Unary { expr, .. } => {
            lemma_expr_constant(env, &expr, start, end, a, b, t, fuel);
        },
        Expr::Binary { lhs, rhs, .. } => {
            assert forall|x: i64|
                #![trigger expr_bounds(env, &lhs, start, end, fuel)->Ok_0.contains(x)]
                expr_bounds(env, &lhs, start, end, fuel)->Ok_0.contains(x) implies !(a < x < b) by {
                assert(bounds.contains(x));
            }
            assert forall|x: i64|
                #![trigger expr_bounds(env, &rhs, start, end, fuel)->Ok_0.contains(x)]
                expr_bounds(env, &rhs, start, end, fuel)->Ok_0.contains(x) implies !(a < x < b) by {
                assert(bounds.contains(x));
            }
            lemma_expr_constant(env, &lhs, start, end, a, b, t, fuel);
            lemma_expr_constant(env, &rhs, start, end, a, b, t, fuel);
        },
        Expr::Agg { .. } => {},
    }
}


/// `f` does not change between neighbours of `g`, up to the one with number `k`.
pub open spec fn constant_between(f: Sampler, g: Seq<i64>, k: nat) -> bool {
    forall|j: int, t: i64|
        #![trigger g[j], f(t)]
        0 <= j < k && g[j] <= t < g[j + 1] ==> f(t) == f(g[j])
}

/// The segments show exactly what `f` yields.
pub open spec fn shows_exactly(segs: Seq<Segment<Value>>, f: Sampler, start: i64, end: i64) -> bool {
    &&& forall|t: i64|
        start <= t < end ==> (#[trigger] f(t)) is Ok && match f(t)->Ok_0 {
            Some(v) => exists|i: int| #[trigger] in_segment(segs, i, t) && segs[i].2 == v,
            None => forall|i: int| !#[trigger] in_segment(segs, i, t),
        }
    &&& forall|i: int| 0 <= i < segs.len() ==> start <= (#[trigger] segs[i]).0 < segs[i].1 <= end
}

pub proof fn lemma_sweep_shows(f: Sampler, g: Seq<i64>, k: nat)
    requires
        strictly_ascending(g),
        k < g.len(),
        sweep(f, g, k) is Ok,
        constant_between(f, g, k),
    ensures
        shows_exactly(sweep(f, g, k)->Ok_0, f, g[0], g[k as int]),
    decreases k,
{
    if k > 0 {
        let m = (k - 1) as nat;
        lemma_sweep_shows(f, g, m);
        let front = sweep(f, g, m)->Ok_0;
        let segs = sweep(f, g, k)->Ok_0;
        let a = g[m as int];
        let b = g[k as int];
        assert(a < b);
        if m > 0 {
            assert(g[0] < g[m as int]);
        }
        assert(f(a) is Ok);
        assert forall|t: i64| g[0] <= t < b implies (#[trigger] f(t)) is Ok && match f(t)->Ok_0 {
            Some(v) => exists|i: int| #[trigger] in_segment(segs, i, t) && segs[i].2 == v,
            None => forall|i: int| !#[trigger] in_segment(segs, i, t),
        } by {
            if t < a {
                if let Some(v) = f(t)->Ok_0 {
                    let i = choose|i: int| #[trigger] in_segment(front, i, t) && front[i].2 == v;
                    assert(in_segment(segs, i, t));
                } else {
                    assert forall|i: int| !#[trigger] in_segment(segs, i, t) by {
                        if in_segment(segs, i, t) && i < front.len() {
                            assert(in_segment(front, i, t));
                        }
                    }
                }
            } else {
                assert(f(t) == f(g[m as int]));
                if let Some(v) = f(t)->Ok_0 {
                    assert(in_segment(segs, front.len() as int, t));
                } else {
                    assert(segs == front);
                }
            }
        }
    }
}

/// Joining neighbours moves no time in or out of the segments, and keeps the values, up to
/// what counts as equal.
pub proof fn lemma_joined_shows(segs: Seq<Segment<Value>>, t: i64)
    requires
        forall|i: int| 0 <= i < segs.len() ==> (#[trigger] segs[i]).0 < segs[i].1,
    ensures
        forall|i: int| #[trigger]
            in_segment(segs, i, t) ==> exists|j: int| #[trigger]
                in_segment(joined(segs), j, t) && agree(
                    Some(joined(segs)[j].2),
                    Some(segs[i].2),
                ),
        forall|j: int| #[trigger]
            in_segment(joined(segs), j, t) ==> exists|i: int| #[trigger] in_segment(segs, i, t),
        segs.len() > 0 ==> joined(segs).len() > 0 && joined(segs).last().1 == segs.last().1,
        forall|j: int| 0 <= j < joined(segs).len() ==> (#[trigger] joined(segs)[j]).0 < joined(segs)[j].1,
    decreases segs.len(),
{
    if segs.len() > 0 {
        let less = segs.drop_last();
        let s = segs.last();
        let n = segs.len() - 1;
        assert forall|i: int| 0 <= i < less.len() implies (#[trigger] less[i]).0 < less[i].1 by {
            assert(less[i] == segs[i]);
        }
        lemma_joined_shows(less, t);
        let front = joined(less);
        let out = joined(segs);
        let glued = front.len() > 0 && front.last().1 == s.0 && front.last().2.alike(&s.2);
        let p = front.len() - 1;
        assert(segs[n].0 < segs[n].1);
        assert forall|i: int| #[trigger] in_segment(segs, i, t) implies exists|j: int| #[trigger]
            in_segment(out, j, t) && agree(Some(out[j].2), Some(segs[i].2)) by {
            if i < n {
                assert(in_segment(less, i, t));
                let j = choose|j: int| #[trigger]
                    in_segment(front, j, t) && agree(Some(front[j].2), Some(less[i].2));
                assert(in_segment(out, j, t));
            } else if glued {
                assert(front[p].0 < front[p].1);
                assert(in_segment(out, p, t));
            } else {
                assert(in_segment(out, front.len() as int, t));
            }
        }
        assert forall|j: int| #[trigger] in_segment(out, j, t) implies exists|i: int| #[trigger]
            in_segment(segs, i, t) by {
            if glued {
                if j == p && t >= s.0 {
                    assert(in_segment(segs, n, t));
                } else {
                    assert(in_segment(front, j, t));
                    let i = choose|i: int| #[trigger] in_segment(less, i, t);
                    assert(in_segment(segs, i, t));
                }
            } else if j < front.len() {
                assert(in_segment(front, j, t));
                let i = choose|i: int| #[trigger] in_segment(less, i, t);
                assert(in_segment(segs, i, t));
            } else {
                assert(in_segment(segs, n, t));
            }
        }
        assert forall|j: int| 0 <= j < out.len() implies (#[trigger] out[j]).0 < out[j].1 by {
            if glued && j == p {
                assert(front[p].0 < front[p].1);
            } else if j < front.len() {
                assert(front[j].0 < front[j].1);
            }
        }
    }
}

/// What is swept over a grid that `f` is constant between shows what `f` yields.
pub proof fn lemma_swept_shows(f: Sampler, g: Seq<i64>)
    requires
        strictly_ascending(g),
        g.len() > 0,
        swept(f, g) is Ok,
        constant_between(f, g, (g.len() - 1) as nat),
    ensures
        shows(swept(f, g)->Ok_0, f, g[0], g.last()),
{
    let k = (g.len() - 1) as nat;
    let segs = sweep(f, g, k)->Ok_0;
    let out = swept(f, g)->Ok_0;
    lemma_sweep_shows(f, g, k);
    assert forall|t: i64| g[0] <= t < g.last() implies (#[trigger] f(t)) is Ok && match f(
        t,
    )->Ok_0 {
        Some(v) => exists|i: int| #[trigger]
            in_segment(out, i, t) && agree(Some(out[i].2), Some(v)),
        None => forall|i: int| !#[trigger] in_segment(out, i, t),
    } by {
        lemma_joined_shows(segs, t);
        if let Some(v) = f(t)->Ok_0 {
            let i = choose|i: int| #[trigger] in_segment(segs, i, t) && segs[i].2 == v;
        } else {
            assert forall|j: int| !#[trigger] in_segment(out, j, t) by {
                if in_segment(out, j, t) {
                    let i = choose|i: int| #[trigger] in_segment(segs, i, t);
                }
            }
        }
    }
}

/// The grid starts and ends with its window, and no bound lies between neighbours.
pub proof fn lemma_grid_neighbours(g: Seq<i64>, bounds: Set<i64>, start: i64, end: i64)
    requires
        on_grid(g, bounds, start, end),
        start < end,
        forall|x: i64| #[trigger] bounds.contains(x) ==> start < x < end,
    ensures
        g.len() > 0,
        g[0] == start,
        g.last() == end,
        forall|j: int, x: i64|
            #![trigger g[j], bounds.contains(x)]
            0 <= j < g.len() - 1 && bounds.contains(x) ==> !(g[j] < x < g[j + 1]),
        forall|j: int| 0 <= j < g.len() ==> start <= #[trigger] g[j] <= end,
{
    assert(among(g, start) && among(g, end));
    assert forall|j: int| 0 <= j < g.len() implies start <= #[trigger] g[j] <= end by {
        assert(among(g, g[j]));
    }
    let p = choose|p: int| 0 <= p < g.len() && #[trigger] g[p] == start;
    let q = choose|q: int| 0 <= q < g.len() && #[trigger] g[q] == end;
    if p > 0 {
        assert(g[0] < g[p]);
    }
    if q < g.len() - 1 {
        assert(g[q] < g[g.len() - 1]);
    }
    assert forall|j: int, x: i64|
        #![trigger g[j], bounds.contains(x)]
        0 <= j < g.len() - 1 && bounds.contains(x) implies !(g[j] < x < g[j + 1]) by {
        assert(among(g, x));
        let i = choose|i: int| 0 <= i < g.len() && #[trigger] g[i] == x;
        if i < j {
            assert(g[i] < g[j]);
        } else if i > j + 1 {
            assert(g[j + 1] < g[i]);
        }
    }
}


/// The bounds from `lo` up to `hi`, in order.
spec fn listing(bounds: Set<i64>, lo: int, hi: int) -> Seq<i64>
    decreases hi - lo,
{
    if lo >= hi {
        Seq::empty()
    } else if bounds.contains(lo as i64) {
        seq![lo as i64] + listing(bounds, lo + 1, hi)
    } else {
        listing(bounds, lo + 1, hi)
    }
}

proof fn lemma_listing(bounds: Set<i64>, lo: int, hi: int)
    requires
        i64::MIN <= lo,
        hi <= i64::MAX,
    ensures
        strictly_ascending(listing(bounds, lo, hi)),
        forall|t: i64| #[trigger]
            among(listing(bounds, lo, hi), t) <==> lo <= t < hi && bounds.contains(t),
        forall|k: int|
            0 <= k < listing(bounds, lo, hi).len() ==> lo <= #[trigger] listing(bounds, lo, hi)[k] < hi,
    decreases hi - lo,
{
    if lo < hi {
        lemma_listing(bounds, lo + 1, hi);
        let rest = listing(bounds, lo + 1, hi);
        let out = listing(bounds, lo, hi);
        if bounds.contains(lo as i64) {
            assert forall|i: int, j: int|
                #![trigger out[i], out[j]]
                0 <= i < j < out.len() implies out[i] < out[j] by {
                assert(out[j] == rest[j - 1]);
                if i > 0 {
                    assert(out[i] == rest[i - 1]);
                }
            }
            assert forall|t: i64| #[trigger] among(out, t) <==> lo <= t < hi && bounds.contains(t) by {
                if among(out, t) {
                    let k = choose|k: int| 0 <= k < out.len() && #[trigger] out[k] == t;
                    if k > 0 {
                        assert(rest[k - 1] == t);
                        assert(among(rest, t));
                    }
                }
                if lo <= t < hi && bounds.contains(t) {
                    if t == lo {
                        assert(out[0] == t);
                    } else {
                        assert(among(rest, t));
                        let k = choose|k: int| 0 <= k < rest.len() && #[trigger] rest[k] == t;
                        assert(out[k + 1] == t);
                    }
                }
            }
            assert forall|k: int| 0 <= k < out.len() implies lo <= #[trigger] out[k] < hi by {
                if k > 0 {
                    assert(out[k] == rest[k - 1]);
                }
            }
        } else {
            assert forall|t: i64| #[trigger] among(out, t) <==> lo <= t < hi && bounds.contains(t) by {
                assert(among(rest, t) <==> lo + 1 <= t < hi && bounds.contains(t));
            }
        }
    }
}

/// There is a grid for any bounds inside a window.
pub proof fn lemma_grid_is(bounds: Set<i64>, start: i64, end: i64)
    requires
        start < end,
        forall|x: i64| #[trigger] bounds.contains(x) ==> start < x < end,
    ensures
        on_grid(grid(bounds, start, end), bounds, start, end),
{
    lemma_listing(bounds, start + 1, end as int);
    let inner = listing(bounds, start + 1, end as int);
    let g = seq![start] + inner + seq![end];
    let n = inner.len() as int;
    assert forall|i: int, j: int|
        #![trigger g[i], g[j]]
        0 <= i < j < g.len() implies g[i] < g[j] by {
        if 0 < i {
            assert(g[i] == inner[i - 1]);
        }
        if j <= n {
            assert(g[j] == inner[j - 1]);
        }
    }
    assert forall|t: i64| #[trigger] among(g, t) <==> t == start || t == end || bounds.contains(t) by {
        if among(g, t) {
            let k = choose|k: int| 0 <= k < g.len() && #[trigger] g[k] == t;
            if 0 < k <= n {
                assert(inner[k - 1] == t);
                assert(among(inner, t));
            }
        }
        if t == start {
            assert(g[0] == t);
        }
        if t == end {
            assert(g[n + 1] == t);
        }
        if bounds.contains(t) {
            assert(among(inner, t));
            let k = choose|k: int| 0 <= k < inner.len() && #[trigger] inner[k] == t;
            assert(g[k + 1] == t);
        }
    }
    assert(on_grid(g, bounds, start, end));
}

/// Bounds lie inside their window.
pub proof fn lemma_lens_bounds_inside(env: Env, lens: Seq<char>, start: i64, end: i64, fuel: nat)
    ensures
        lens_bounds(env, lens, start, end, fuel) matches Ok(bounds) ==> forall|x: i64| #[trigger]
            bounds.contains(x) ==> start < x < end,
    decreases fuel, 0int, 0int,
{
    if !env.types.contains_key(lens) && env.derived.contains_key(lens) && fuel > 0 {
        lemma_expr_bounds_inside(env, &*env.derived[lens], start, end, (fuel - 1) as nat);
    }
}

pub proof fn lemma_expr_bounds_inside(env: Env, e: &Expr, start: i64, end: i64, fuel: nat)
    ensures
        expr_bounds(env, e, start, end, fuel) matches Ok(bounds) ==> forall|x: i64| #[trigger]
            bounds.contains(x) ==> start < x < end,
    decreases fuel, 1int, depth(e),
{
    match *e {
        Expr::Ident(name) => lemma_lens_bounds_inside(env, name@, start, end, fuel),
        Expr::Unary { expr, .. } => lemma_expr_bounds_inside(env, &expr, start, end, fuel),
        Expr::Binary { lhs, rhs, .. } => {
            lemma_expr_bounds_inside(env, &lhs, start, end, fuel);
            lemma_expr_bounds_inside(env, &rhs, start, end, fuel);
        },
        _ => {},
    }
}

/// A materialised lens is filled with what its expression yields at each time in its
/// window, where neither the expression nor what it reads holds an aggregate.
pub proof fn law_materialised_shows_expression(
    env: Env,
    e: &Expr,
    start: i64,
    end: i64,
    fuel: nat,
    segs: Seq<Segment<Value>>,
)
    requires
        env_wf(env),
        steady(env, e, fuel),
        materialised(env, e, Some((start, end)), fuel) == Ok::<Seq<Segment<Value>>, ExecErrorV>(
            segs,
        ),
    ensures
        shows(segs, expr_sampler(env, e, fuel), start, end),
{
    if start < end {
        let bounds = expr_bounds(env, e, start, end, fuel)->Ok_0;
        let f = expr_sampler(env, e, fuel);
        let g = grid(bounds, start, end);
        lemma_expr_bounds_inside(env, e, start, end, fuel);
        lemma_grid_is(bounds, start, end);
        lemma_grid_neighbours(g, bounds, start, end);
        assert forall|j: int, t: i64|
            #![trigger g[j], f(t)]
            0 <= j < g.len() - 1 && g[j] <= t < g[j + 1] implies f(t) == f(g[j]) by {
            assert(start <= g[j] && g[j + 1] <= end);
            lemma_expr_constant(env, e, start, end, g[j], g[j + 1], t, fuel);
        }
        lemma_swept_shows(f, g);
    }
}

/// What a lookup says of a time.
pub open spec fn at_sampler(s: StateV, name: Seq<char>, inputs: &Inputs) -> Sampler {
    |t: i64| at_of(s, name, t, inputs)
}

/// `RANGE LENS` shows what `AT LENS` says of each time in the window: always on a base
/// lens, and on a derived lens where nothing that it reads holds an aggregate.
pub proof fn law_range_agrees_with_at(
    s: StateV,
    name: Seq<char>,
    start: i64,
    end: i64,
    inputs: &Inputs,
    segs: Seq<Segment<Value>>,
)
    requires
        env_wf(s.env(inputs)),
        s.types.contains_key(name) || steady_lens(s.env(inputs), name, s.fuel()),
        range_answered(s, name, start, end, None, None, None, inputs, Ok(segs)),
    ensures
        shows(segs, at_sampler(s, name, inputs), start, end),
{
    let env = s.env(inputs);
    let from = s.window_start(name, start, inputs);
    let f = at_sampler(s, name, inputs);
    if from >= end {
        assert forall|t: i64| start <= t < end implies (#[trigger] f(t)) is Ok && match f(t)->Ok_0 {
            Some(v) => exists|i: int| #[trigger]
                in_segment(segs, i, t) && agree(Some(segs[i].2), Some(v)),
            None => forall|i: int| !#[trigger] in_segment(segs, i, t),
        } by {}
    } else if s.types.contains_key(name) {
        lemma_base_range_shows(s, name, start, end, inputs, segs);
    } else {
        let all = range_of(env, name, from, end, None, s.fuel())->Ok_0;
        assert(all.skip(0) =~= all);
        assert(segs == all);
        lemma_derived_range_shows(s, name, start, end, inputs, segs);
    }
}

/// Before its time to live, a lens shows nothing, and its windows start later.
pub proof fn lemma_base_range_shows(
    s: StateV,
    name: Seq<char>,
    start: i64,
    end: i64,
    inputs: &Inputs,
    segs: Seq<Segment<Value>>,
)
    requires
        s.types.contains_key(name),
        s.window_start(name, start, inputs) < end,
        range_answered(s, name, start, end, None, None, None, inputs, Ok(segs)),
    ensures
        shows(segs, at_sampler(s, name, inputs), start, end),
{
    let from = s.window_start(name, start, inputs);
    let f = at_sampler(s, name, inputs);
    let stack = stack_of(s.db.stacks, name);
    let p = probe(stack, Seq::empty(), None);
    let all = choose|all: Seq<Segment<Value>>| #[trigger]
        traces(all, p, from as int, end as int) && segs == window_of(all, None, None);
    assert(all.skip(0) =~= all);
    assert(segs == all);
    assert forall|t: i64| start <= t < end implies (#[trigger] f(t)) is Ok && match f(t)->Ok_0 {
        Some(v) => exists|i: int| #[trigger]
            in_segment(segs, i, t) && agree(Some(segs[i].2), Some(v)),
        None => forall|i: int| !#[trigger] in_segment(segs, i, t),
    } by {
        assert(seq![t] + Seq::<i64>::empty() =~= seq![t]);
        if t < from {
            assert forall|i: int| !#[trigger] in_segment(segs, i, t) by {
                if in_segment(segs, i, t) {
                    assert(from <= segs[i].0);
                }
            }
        } else {
            assert(f(t) == Ok::<Option<Value>, ExecErrorV>(p(t)));
            if let Some(v) = p(t) {
                let i = choose|i: int|
                    0 <= i < segs.len() && (#[trigger] segs[i]).0 <= t < segs[i].1;
                assert(in_segment(segs, i, t));
            } else {
                assert forall|i: int| !#[trigger] in_segment(segs, i, t) by {
                    if in_segment(segs, i, t) {
                        assert(agree(Some(segs[i].2), p(t)));
                    }
                }
            }
        }
    }
}

/// A steady derived lens over a window.
proof fn lemma_derived_window(env: Env, name: Seq<char>, from: i64, end: i64, fuel: nat)
    requires
        env_wf(env),
        !env.types.contains_key(name),
        steady_lens(env, name, fuel),
        from < end,
        range_of(env, name, from, end, None, fuel) is Ok,
    ensures
        shows(
            range_of(env, name, from, end, None, fuel)->Ok_0,
            kept_at(env, name, None, fuel),
            from,
            end,
        ),
        forall|i: int, t: i64| #[trigger]
            in_segment(range_of(env, name, from, end, None, fuel)->Ok_0, i, t) ==> from <= t,
{
    let segs = range_of(env, name, from, end, None, fuel)->Ok_0;
    let k = kept_at(env, name, None, fuel);
    let bounds = lens_bounds(env, name, from, end, fuel)->Ok_0;
    let g = grid(bounds, from, end);
    lemma_lens_bounds_inside(env, name, from, end, fuel);
    lemma_grid_is(bounds, from, end);
    lemma_grid_neighbours(g, bounds, from, end);
    assert forall|j: int, t: i64|
        #![trigger g[j], k(t)]
        0 <= j < g.len() - 1 && g[j] <= t < g[j + 1] implies k(t) == k(g[j]) by {
        assert(from <= g[j] && g[j + 1] <= end);
        lemma_lens_constant(env, name, from, end, g[j], g[j + 1], t, fuel);
    }
    lemma_swept_shows(k, g);
    let n = (g.len() - 1) as nat;
    lemma_sweep_shows(k, g, n);
    let raw = sweep(k, g, n)->Ok_0;
    assert forall|i: int, t: i64| #[trigger] in_segment(segs, i, t) implies from <= t by {
        lemma_joined_shows(raw, t);
        let m = choose|m: int| #[trigger] in_segment(raw, m, t);
        assert(from <= raw[m].0);
    }
}

proof fn lemma_derived_range_shows(
    s: StateV,
    name: Seq<char>,
    start: i64,
    end: i64,
    inputs: &Inputs,
    segs: Seq<Segment<Value>>,
)
    requires
        env_wf(s.env(inputs)),
        !s.types.contains_key(name),
        steady_lens(s.env(inputs), name, s.fuel()),
        s.window_start(name, start, inputs) < end,
        is_single_axis(s, name, "RANGE"@) is Ok,
        range_of(
            s.env(inputs),
            name,
            s.window_start(name, start, inputs),
            end,
            None,
            s.fuel(),
        ) == Ok::<Seq<Segment<Value>>, ExecErrorV>(segs),
    ensures
        shows(segs, at_sampler(s, name, inputs), start, end),
{
    let env = s.env(inputs);
    let fuel = s.fuel();
    let from = s.window_start(name, start, inputs);
    let f = at_sampler(s, name, inputs);
    let k = kept_at(env, name, None, fuel);
    lemma_derived_window(env, name, from, end, fuel);
    assert forall|t: i64| start <= t < end implies (#[trigger] f(t)) is Ok && match f(t)->Ok_0 {
        Some(v) => exists|i: int| #[trigger]
            in_segment(segs, i, t) && agree(Some(segs[i].2), Some(v)),
        None => forall|i: int| !#[trigger] in_segment(segs, i, t),
    } by {
        if t >= from {
            assert(k(t) is Ok);
            assert(k(t) == lens_at(env, name, t, fuel));
            assert(f(t) == k(t));
        }
    }
}

} // verus!
