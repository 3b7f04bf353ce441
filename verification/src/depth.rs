//! Following derivations never runs out.
//!
//! Evaluation follows at most as many derivations as there are derived lenses. As long as
//! no derived lens leads to itself, that bound is never felt.

use crate::ast::{AggFunc, Expr};
use crate::catalog::{acyclic, lemma_reaches_through, mentions, reaches, reaches_in};
use crate::clock::clamp;
use crate::eval::{
    agg_over, depth, domain_of, expr_at, expr_bounds, expr_sampler, greater, grid, kept_at, lens_at,
    lens_bounds, lesser, materialised, range_bounds, range_of, samples, sweep, Env, Sampler,
};
use vstd::prelude::*;

verus! {

/// `live` holds every derived lens that the expression leads to.
spec fn holds_all(env: Env, e: &Expr, live: Set<Seq<char>>) -> bool {
    forall|n: Seq<char>| #[trigger]
        reaches(env.derived, e, n) && env.derived.contains_key(n) ==> live.contains(n)
}

/// `live` holds the lens, where it is derived, and every derived lens that it leads to.
spec fn holds_lens(env: Env, lens: Seq<char>, live: Set<Seq<char>>) -> bool {
    env.derived.contains_key(lens) ==> live.contains(lens) && holds_all(
        env,
        &*env.derived[lens],
        live,
    )
}

proof fn lemma_holds_mentioned(env: Env, e: &Expr, lens: Seq<char>, live: Set<Seq<char>>)
    requires
        holds_all(env, e, live),
        mentions(e, lens),
    ensures
        holds_lens(env, lens, live),
{
    if env.derived.contains_key(lens) {
        assert(reaches_in(env.derived, e, lens, 0));
        assert(reaches(env.derived, e, lens));
        assert forall|n: Seq<char>| #[trigger]
            reaches(env.derived, &*env.derived[lens], n) && env.derived.contains_key(n) implies live.contains(
            n,
        ) by {
            let k = choose|k: nat| reaches_in(env.derived, &*env.derived[lens], n, k);
            lemma_reaches_through(env.derived, e, lens, n, 0, k);
            assert(reaches(env.derived, e, n));
        }
    }
}

proof fn lemma_holds_part(env: Env, e: &Expr, part: &Expr, live: Set<Seq<char>>)
    requires
        holds_all(env, e, live),
        forall|n: Seq<char>| #[trigger] mentions(part, n) ==> mentions(e, n),
    ensures
        holds_all(env, part, live),
{
    assert forall|n: Seq<char>| #[trigger]
        reaches(env.derived, part, n) && env.derived.contains_key(n) implies live.contains(n) by {
        let k = choose|k: nat| reaches_in(env.derived, part, n, k);
        assert(reaches_in(env.derived, e, n, k));
        assert(reaches(env.derived, e, n));
    }
}

/// Behind a derived lens there is one derived lens fewer left to follow.
proof fn lemma_holds_inner(env: Env, lens: Seq<char>, live: Set<Seq<char>>)
    requires
        acyclic(env.derived),
        env.derived.contains_key(lens),
        holds_lens(env, lens, live),
        live.finite(),
    ensures
        holds_all(env, &*env.derived[lens], live.remove(lens)),
        live.remove(lens).finite(),
        live.remove(lens).len() == live.len() - 1,
{
    assert forall|n: Seq<char>| #[trigger]
        reaches(env.derived, &*env.derived[lens], n) && env.derived.contains_key(n) implies live.remove(
        lens,
    ).contains(n) by {
        assert(live.contains(n));
        assert(!reaches(env.derived, &*env.derived[lens], lens));
    }
}

proof fn lemma_lens_fuel(env: Env, lens: Seq<char>, t: i64, fuel: nat, more: nat, live: Set<Seq<char>>)
    requires
        acyclic(env.derived),
        holds_lens(env, lens, live),
        live.finite(),
        live.len() <= fuel <= more,
    ensures
        lens_at(env, lens, t, fuel) == lens_at(env, lens, t, more),
    decreases fuel, 0int, 0int,
{
    if env.derived.contains_key(lens) {
        lemma_holds_inner(env, lens, live);
        lemma_expr_fuel(
            env,
            &*env.derived[lens],
            t,
            (fuel - 1) as nat,
            (more - 1) as nat,
            live.remove(lens),
        );
    }
}

proof fn lemma_expr_fuel(env: Env, e: &Expr, t: i64, fuel: nat, more: nat, live: Set<Seq<char>>)
    requires
        acyclic(env.derived),
        holds_all(env, e, live),
        live.finite(),
        live.len() <= fuel <= more,
    ensures
        expr_at(env, e, t, fuel) == expr_at(env, e, t, more),
    decreases fuel, 3int, depth(e),
{
    match *e {
        Expr::Lit(_) => {},
        Expr::Ident(name) => {
            lemma_holds_mentioned(env, e, name@, live);
            lemma_lens_fuel(env, name@, t, fuel, more, live);
        },
        Expr::Unary { op, expr } => {
            lemma_holds_part(env, e, &expr, live);
            lemma_expr_fuel(env, &expr, t, fuel, more, live);
        },
        Expr::Binary { op, lhs, rhs } => {
            lemma_holds_part(env, e, &lhs, live);
            lemma_holds_part(env, e, &rhs, live);
            lemma_expr_fuel(env, &lhs, t, fuel, more, live);
            lemma_expr_fuel(env, &rhs, t, fuel, more, live);
        },
        Expr::Agg { func, lens, rel_start, rel_end } => {
            lemma_holds_mentioned(env, e, lens@, live);
            lemma_agg_fuel(
                env,
                lens@,
                func,
                clamp(t + rel_start),
                clamp(t + rel_end),
                fuel,
                more,
                live,
            );
        },
    }
}

proof fn lemma_agg_fuel(
    env: Env,
    lens: Seq<char>,
    func: AggFunc,
    start: i64,
    end: i64,
    fuel: nat,
    more: nat,
    live: Set<Seq<char>>,
)
    requires
        acyclic(env.derived),
        holds_lens(env, lens, live),
        live.finite(),
        live.len() <= fuel <= more,
    ensures
        agg_over(env, lens, func, start, end, fuel) == agg_over(env, lens, func, start, end, more),
    decreases fuel, 2int, 0int,
{
    lemma_lens_bounds_fuel(env, lens, start, end, fuel, more, live);
    if let Ok(bounds) = lens_bounds(env, lens, start, end, fuel) {
        let g = grid(bounds, start, end);
        lemma_samples_fuel(env, lens, g, (g.len() - 1) as nat, fuel, more, live);
    }
}

proof fn lemma_samples_fuel(
    env: Env,
    lens: Seq<char>,
    g: Seq<i64>,
    k: nat,
    fuel: nat,
    more: nat,
    live: Set<Seq<char>>,
)
    requires
        acyclic(env.derived),
        holds_lens(env, lens, live),
        live.finite(),
        live.len() <= fuel <= more,
    ensures
        samples(env, lens, g, k, fuel) == samples(env, lens, g, k, more),
    decreases fuel, 1int, k,
{
    if k > 0 {
        lemma_samples_fuel(env, lens, g, (k - 1) as nat, fuel, more, live);
        lemma_lens_fuel(env, lens, g[k - 1], fuel, more, live);
    }
}

proof fn lemma_lens_bounds_fuel(
    env: Env,
    lens: Seq<char>,
    start: i64,
    end: i64,
    fuel: nat,
    more: nat,
    live: Set<Seq<char>>,
)
    requires
        acyclic(env.derived),
        holds_lens(env, lens, live),
        live.finite(),
        live.len() <= fuel <= more,
    ensures
        lens_bounds(env, lens, start, end, fuel) == lens_bounds(env, lens, start, end, more),
    decreases fuel, 0int, 0int,
{
    if env.derived.contains_key(lens) {
        lemma_holds_inner(env, lens, live);
        lemma_expr_bounds_fuel(
            env,
            &*env.derived[lens],
            start,
            end,
            (fuel - 1) as nat,
            (more - 1) as nat,
            live.remove(lens),
        );
    }
}

proof fn lemma_expr_bounds_fuel(
    env: Env,
    e: &Expr,
    start: i64,
    end: i64,
    fuel: nat,
    more: nat,
    live: Set<Seq<char>>,
)
    requires
        acyclic(env.derived),
        holds_all(env, e, live),
        live.finite(),
        live.len() <= fuel <= more,
    ensures
        expr_bounds(env, e, start, end, fuel) == expr_bounds(env, e, start, end, more),
    decreases fuel, 1int, depth(e),
{
    match *e {
        Expr::Lit(_) => {},
        Expr::Ident(name) => {
            lemma_holds_mentioned(env, e, name@, live);
            lemma_lens_bounds_fuel(env, name@, start, end, fuel, more, live);
        },
        Expr::Unary { op, expr } => {
            lemma_holds_part(env, e, &expr, live);
            lemma_expr_bounds_fuel(env, &expr, start, end, fuel, more, live);
        },
        Expr::Binary { op, lhs, rhs } => {
            lemma_holds_part(env, e, &lhs, live);
            lemma_holds_part(env, e, &rhs, live);
            lemma_expr_bounds_fuel(env, &lhs, start, end, fuel, more, live);
            lemma_expr_bounds_fuel(env, &rhs, start, end, fuel, more, live);
        },
        Expr::Agg { func, lens, rel_start, rel_end } => {
            lemma_holds_mentioned(env, e, lens@, live);
            lemma_lens_bounds_fuel(
                env,
                lens@,
                clamp(start + lesser(rel_start, rel_end)),
                clamp(end + greater(rel_start, rel_end)),
                fuel,
                more,
                live,
            );
        },
    }
}

/// The number of derived lenses bounds the derivations that evaluation follows: where no
/// derived lens leads to itself, allowing more changes no value of a lens or an expression.
pub proof fn law_derivations_run_out(env: Env, lens: Seq<char>, e: &Expr, t: i64, more: nat)
    requires
        acyclic(env.derived),
        env.derived.dom().finite(),
        more >= env.derived.dom().len(),
    ensures
        lens_at(env, lens, t, env.derived.dom().len()) == lens_at(env, lens, t, more),
        expr_at(env, e, t, env.derived.dom().len()) == expr_at(env, e, t, more),
{
    let all = env.derived.dom();
    lemma_lens_fuel(env, lens, t, all.len(), more, all);
    lemma_expr_fuel(env, e, t, all.len(), more, all);
}

proof fn lemma_sweep_fuel(f: Sampler, h: Sampler, g: Seq<i64>, k: nat)
    requires
        forall|t: i64| #[trigger] f(t) == h(t),
    ensures
        sweep(f, g, k) == sweep(h, g, k),
    decreases k,
{
    if k > 0 {
        lemma_sweep_fuel(f, h, g, (k - 1) as nat);
        assert(f(g[k - 1]) == h(g[k - 1]));
    }
}

/// The same of what a lens shows over a window, filtered or not.
pub proof fn law_derivations_run_out_over_windows(
    env: Env,
    lens: Seq<char>,
    start: i64,
    end: i64,
    filter: Option<&Expr>,
    more: nat,
)
    requires
        acyclic(env.derived),
        env.derived.dom().finite(),
        more >= env.derived.dom().len(),
    ensures
        range_of(env, lens, start, end, filter, env.derived.dom().len()) == range_of(
            env,
            lens,
            start,
            end,
            filter,
            more,
        ),
{
    let all = env.derived.dom();
    let fuel = all.len();
    lemma_lens_bounds_fuel(env, lens, start, end, fuel, more, all);
    if let Some(e) = filter {
        lemma_expr_bounds_fuel(env, e, start, end, fuel, more, all);
    }
    let f = kept_at(env, lens, filter, fuel);
    let h = kept_at(env, lens, filter, more);
    assert forall|t: i64| #[trigger] f(t) == h(t) by {
        lemma_lens_fuel(env, lens, t, fuel, more, all);
        if let Some(e) = filter {
            lemma_expr_fuel(env, e, t, fuel, more, all);
        }
    }
    if let Ok(bounds) = range_bounds(env, lens, start, end, filter, fuel) {
        let g = grid(bounds, start, end);
        lemma_sweep_fuel(f, h, g, (g.len() - 1) as nat);
    }
}

/// The same of what a materialised lens is filled with.
pub proof fn law_derivations_run_out_in_materialising(
    env: Env,
    e: &Expr,
    range: Option<(i64, i64)>,
    more: nat,
)
    requires
        acyclic(env.derived),
        env.derived.dom().finite(),
        more >= env.derived.dom().len(),
    ensures
        materialised(env, e, range, env.derived.dom().len()) == materialised(env, e, range, more),
{
    let all = env.derived.dom();
    let fuel = all.len();
    let window = match range {
        Some(w) => Some(w),
        None => domain_of(env, e),
    };
    if let Some((start, end)) = window {
        lemma_expr_bounds_fuel(env, e, start, end, fuel, more, all);
        let f = expr_sampler(env, e, fuel);
        let h = expr_sampler(env, e, more);
        assert forall|t: i64| #[trigger] f(t) == h(t) by {
            lemma_expr_fuel(env, e, t, fuel, more, all);
        }
        if let Ok(bounds) = expr_bounds(env, e, start, end, fuel) {
            let g = grid(bounds, start, end);
            lemma_sweep_fuel(f, h, g, (g.len() - 1) as nat);
        }
    }
}

} // verus!
