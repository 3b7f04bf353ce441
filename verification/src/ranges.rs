//! What windows of a lens show: with a filter, and page by page.

use crate::ast::{Expr, Stmt};
use crate::error::{ExecError, ExecErrorV};
use crate::eval::{
    expr_at, expr_bounds, grid, joined, kept_at, lens_bounds, range_bounds, range_of, sweep, swept,
    Env, Sampler,
};
use crate::inputs::Inputs;
use crate::layers::{agree, probe, strictly_ascending, traces, Segment};
use crate::lookups::{in_order, Databases};
use crate::memory::stack_of;
use crate::model::Datum;
use crate::output::Output;
use crate::query::{at_of, range_answered, window_of};
use crate::read::answers;
use crate::state::StateV;
use crate::value::Value;
use crate::windows::{
    at_sampler, constant_between, env_wf, in_segment, law_range_agrees_with_at, lemma_expr_bounds_inside, lemma_expr_constant,
    lemma_grid_is, lemma_grid_neighbours, lemma_lens_bounds_inside,
    lemma_lens_constant, lemma_swept_shows, shows, steady, steady_lens,
};
use vstd::prelude::*;

verus! {

/// What `AT LENS` gives at a time at which a filter, if there is one, is true.
pub open spec fn where_true(
    s: StateV,
    name: Seq<char>,
    filter: Option<&Expr>,
    inputs: &Inputs,
) -> Sampler {
    |t: i64|
        match (at_of(s, name, t, inputs), filter) {
            (Ok(Some(v)), Some(e)) => if expr_at(s.env(inputs), e, t, s.fuel()) == Ok::<
                Option<Value>,
                ExecErrorV,
            >(Some(Value::Bool(true))) {
                Ok(Some(v))
            } else {
                Ok(None)
            },
            (r, _) => r,
        }
}

/// Between neighbouring bounds of both, a steady lens and a steady filter do not change.
proof fn lemma_kept_constant(
    env: Env,
    name: Seq<char>,
    from: i64,
    end: i64,
    e: &Expr,
    fuel: nat,
    a: i64,
    b: i64,
    t: i64,
)
    requires
        env_wf(env),
        steady_lens(env, name, fuel),
        steady(env, e, fuel),
        from <= a <= t < b <= end,
        range_bounds(env, name, from, end, Some(e), fuel) is Ok,
        forall|x: i64|
            #![trigger range_bounds(env, name, from, end, Some(e), fuel)->Ok_0.contains(x)]
            range_bounds(env, name, from, end, Some(e), fuel)->Ok_0.contains(x) ==> !(a < x < b),
    ensures
        kept_at(env, name, Some(e), fuel)(t) == kept_at(env, name, Some(e), fuel)(a),
{
    let bounds = range_bounds(env, name, from, end, Some(e), fuel)->Ok_0;
    assert forall|x: i64|
        #![trigger lens_bounds(env, name, from, end, fuel)->Ok_0.contains(x)]
        lens_bounds(env, name, from, end, fuel)->Ok_0.contains(x) implies !(a < x < b) by {
        assert(bounds.contains(x));
    }
    assert forall|x: i64|
        #![trigger expr_bounds(env, e, from, end, fuel)->Ok_0.contains(x)]
        expr_bounds(env, e, from, end, fuel)->Ok_0.contains(x) implies !(a < x < b) by {
        assert(bounds.contains(x));
    }
    lemma_lens_constant(env, name, from, end, a, b, t, fuel);
    lemma_expr_constant(env, e, from, end, a, b, t, fuel);
}

/// A function swept over a grid that it is constant between.
proof fn lemma_swept_within(f: Sampler, g: Seq<i64>)
    requires
        strictly_ascending(g),
        g.len() > 0,
        swept(f, g) is Ok,
        constant_between(f, g, (g.len() - 1) as nat),
    ensures
        shows(swept(f, g)->Ok_0, f, g[0], g.last()),
        forall|i: int, t: i64| #[trigger] in_segment(swept(f, g)->Ok_0, i, t) ==> g[0] <= t,
{
    lemma_swept_shows(f, g);
    let n = (g.len() - 1) as nat;
    lemma_sweep_in_order(f, g, n);
    lemma_joined_coarse(sweep(f, g, n)->Ok_0, g[0], g.last());
}

/// A steady lens over a window, where a steady filter holds.
proof fn lemma_filtered_window(
    env: Env,
    name: Seq<char>,
    from: i64,
    end: i64,
    e: &Expr,
    fuel: nat,
)
    requires
        env_wf(env),
        steady_lens(env, name, fuel),
        steady(env, e, fuel),
        from < end,
        range_of(env, name, from, end, Some(e), fuel) is Ok,
    ensures
        shows(
            range_of(env, name, from, end, Some(e), fuel)->Ok_0,
            kept_at(env, name, Some(e), fuel),
            from,
            end,
        ),
        forall|i: int, t: i64| #[trigger]
            in_segment(range_of(env, name, from, end, Some(e), fuel)->Ok_0, i, t) ==> from <= t,
{
    let k = kept_at(env, name, Some(e), fuel);
    let bounds = range_bounds(env, name, from, end, Some(e), fuel)->Ok_0;
    let g = grid(bounds, from, end);
    lemma_lens_bounds_inside(env, name, from, end, fuel);
    lemma_expr_bounds_inside(env, e, from, end, fuel);
    lemma_grid_is(bounds, from, end);
    lemma_grid_neighbours(g, bounds, from, end);
    assert forall|j: int, t: i64|
        #![trigger g[j], k(t)]
        0 <= j < g.len() - 1 && g[j] <= t < g[j + 1] implies k(t) == k(g[j]) by {
        assert(from <= g[j] && g[j + 1] <= end);
        lemma_kept_constant(env, name, from, end, e, fuel, g[j], g[j + 1], t);
    }
    lemma_swept_within(k, g);
}

/// `RANGE LENS ... WHERE` shows at each time of the window what `AT LENS` gives, where the
/// filter is true at that time, and nothing elsewhere. This is said of lenses and filters that
/// read no aggregate.
pub proof fn law_filtered_range_agrees_with_at(
    databases: Databases,
    active: Option<Seq<char>>,
    name: String,
    start: i64,
    end: i64,
    filter: Option<Expr>,
    inputs: &Inputs,
    r: Result<Output, ExecError>,
)
    requires
        active is Some,
        databases.contains_key(active->0),
        env_wf(databases[active->0].env(inputs)),
        steady_lens(databases[active->0].env(inputs), name@, databases[active->0].fuel()),
        filter matches Some(e) ==> steady(
            databases[active->0].env(inputs),
            &e,
            databases[active->0].fuel(),
        ),
        answers(
            databases,
            active,
            &Stmt::Range { name, start, end, filter, limit: None, offset: None },
            inputs,
            r,
        ),
        r is Ok,
    ensures
        r matches Ok(Output::Range(segs)) && shows(
            segs@,
            where_true(
                databases[active->0],
                name@,
                match filter {
                    Some(e) => Some(&e),
                    None => None,
                },
                inputs,
            ),
            start,
            end,
        ),
{
    let s = databases[active->0];
    let segs = r->Ok_0->Range_0@;
    let env = s.env(inputs);
    let from = s.window_start(name@, start, inputs);
    match filter {
        None => {
            law_range_agrees_with_at(s, name@, start, end, inputs, segs);
            let f = where_true(s, name@, None, inputs);
            let at = at_sampler(s, name@, inputs);
            assert forall|t: i64| #[trigger] f(t) == at(t) by {}
        },
        Some(e) => {
            let f = where_true(s, name@, Some(&e), inputs);
            if from < end {
                let all = range_of(env, name@, from, end, Some(&e), s.fuel())->Ok_0;
                assert(all.skip(0) =~= all);
                assert(segs == all);
                lemma_filtered_window(env, name@, from, end, &e, s.fuel());
                let k = kept_at(env, name@, Some(&e), s.fuel());
                assert forall|t: i64| start <= t < end implies (#[trigger] f(t)) is Ok && match f(
                    t,
                )->Ok_0 {
                    Some(v) => exists|i: int| #[trigger]
                        in_segment(segs, i, t) && agree(Some(segs[i].2), Some(v)),
                    None => forall|i: int| !#[trigger] in_segment(segs, i, t),
                } by {
                    if t >= from {
                        assert(k(t) is Ok);
                        assert(f(t) == k(t));
                    }
                }
            } else {
                assert forall|t: i64| start <= t < end implies (#[trigger] f(t)) is Ok && match f(
                    t,
                )->Ok_0 {
                    Some(v) => exists|i: int| #[trigger]
                        in_segment(segs, i, t) && agree(Some(segs[i].2), Some(v)),
                    None => forall|i: int| !#[trigger] in_segment(segs, i, t),
                } by {}
            }
        },
    }
}

/// The page of a list that leaves out so many entries and holds so many at most.
pub open spec fn is_page<T>(all: Seq<T>, offset: Option<u64>, limit: Option<u64>, page: Seq<T>) -> bool {
    let skipped = match offset {
        Some(n) => n as int,
        None => 0,
    };
    &&& limit matches Some(n) ==> page.len() <= n
    &&& forall|i: int| 0 <= i < page.len() ==> skipped + i < all.len() && #[trigger] page[i]
        == all[skipped + i]
    &&& (limit matches Some(n) ==> page.len() < n) ==> skipped + page.len() >= all.len()
}

/// What a window shows in all, without `LIMIT` and `OFFSET`.
pub open spec fn shown_in_all(
    s: StateV,
    name: Seq<char>,
    start: i64,
    end: i64,
    filter: Option<Expr>,
    inputs: &Inputs,
    all: Seq<Segment<Value>>,
) -> bool {
    match filter {
        Some(e) => range_answered(s, name, start, end, Some(&e), None, None, inputs, Ok(all)),
        None => range_answered(s, name, start, end, None, None, None, inputs, Ok(all)),
    }
}

proof fn lemma_page<T>(all: Seq<T>, offset: Option<u64>, limit: Option<u64>)
    ensures
        is_page(all, offset, limit, window_of(all, offset, limit)),
{
}

/// `OFFSET` leaves out the first stretches of the answer, and `LIMIT` keeps so many of the
/// rest.
pub proof fn law_pages_of_a_range(
    databases: Databases,
    active: Option<Seq<char>>,
    name: String,
    start: i64,
    end: i64,
    filter: Option<Expr>,
    limit: Option<u64>,
    offset: Option<u64>,
    inputs: &Inputs,
    r: Result<Output, ExecError>,
)
    requires
        active is Some,
        databases.contains_key(active->0),
        answers(
            databases,
            active,
            &Stmt::Range { name, start, end, filter, limit, offset },
            inputs,
            r,
        ),
        r is Ok,
    ensures
        r matches Ok(Output::Range(page)) && exists|all: Seq<Segment<Value>>|
            is_page(all, offset, limit, page@) && #[trigger] shown_in_all(
                databases[active->0],
                name@,
                start,
                end,
                filter,
                inputs,
                all,
            ),
{
    let s = databases[active->0];
    let page = r->Ok_0->Range_0@;
    let f: Option<&Expr> = match filter {
        Some(e) => Some(&e),
        None => None,
    };
    let from = s.window_start(name@, start, inputs);
    if from >= end {
        assert(shown_in_all(s, name@, start, end, filter, inputs, page));
        assert(is_page(page, offset, limit, page));
    } else if filter is None && s.types.contains_key(name@) {
        let p = probe(stack_of(s.db.stacks, name@), Seq::empty(), None);
        let all = choose|all: Seq<Segment<Value>>| #[trigger]
            traces(all, p, from as int, end as int) && page == window_of(all, offset, limit);
        assert(all.skip(0) =~= all);
        lemma_page(all, offset, limit);
        assert(shown_in_all(s, name@, start, end, filter, inputs, all));
    } else {
        let all = range_of(s.env(inputs), name@, from, end, f, s.fuel())->Ok_0;
        assert(all.skip(0) =~= all);
        lemma_page(all, offset, limit);
        assert(shown_in_all(s, name@, start, end, filter, inputs, all));
    }
}

/// Where one stretch ends as the next begins, their values differ.
pub open spec fn is_coarse(segs: Seq<Segment<Value>>) -> bool {
    forall|i: int, j: int|
        #![trigger segs[i], segs[j]]
        0 <= i && j == i + 1 && j < segs.len() && segs[i].1 == segs[j].0 ==> !segs[i].2.alike(
            &segs[j].2,
        )
}

proof fn lemma_joined_coarse(segs: Seq<Segment<Value>>, start: i64, end: i64)
    requires
        in_order(segs, start, end),
    ensures
        in_order(joined(segs), start, end),
        is_coarse(joined(segs)),
        segs.len() > 0 ==> joined(segs).len() > 0 && joined(segs).last().1 == segs.last().1,
    decreases segs.len(),
{
    if segs.len() > 0 {
        let n = segs.len() - 1;
        let less = segs.drop_last();
        let s = segs.last();
        assert forall|i: int| 0 <= i < less.len() implies start <= (#[trigger] less[i]).0
            < less[i].1 <= end by {
            assert(less[i] == segs[i]);
        }
        assert forall|i: int, j: int|
            #![trigger less[i], less[j]]
            0 <= i < j < less.len() implies less[i].1 <= less[j].0 by {
            assert(segs[i].1 <= segs[j].0);
        }
        lemma_joined_coarse(less, start, end);
        let front = joined(less);
        let out = joined(segs);
        let p = front.len() - 1;
        assert(start <= segs[n].0 < segs[n].1 <= end);
        if n > 0 {
            assert(segs[n - 1].1 <= segs[n].0);
            assert(less.last() == segs[n - 1]);
        }
        let glued = front.len() > 0 && front.last().1 == s.0 && front.last().2.alike(&s.2);
        assert forall|i: int| 0 <= i < out.len() implies start <= (#[trigger] out[i]).0 < out[i].1
            <= end by {
            if i < front.len() {
                assert(start <= front[i].0 < front[i].1 <= end);
            }
        }
        assert forall|i: int, j: int|
            #![trigger out[i], out[j]]
            0 <= i < j < out.len() implies out[i].1 <= out[j].0 by {
            if j < front.len() {
                assert(front[i].1 <= front[j].0);
            } else if i < p {
                assert(front[i].1 <= front[p].0);
                assert(front[p].0 < front[p].1);
            }
        }
        assert forall|i: int, j: int|
            #![trigger out[i], out[j]]
            0 <= i && j == i + 1 && j < out.len() && out[i].1 == out[j].0 implies !out[i].2.alike(
            &out[j].2,
        ) by {
            if j < front.len() {
                assert(front[i] == out[i]);
                assert(front[j].0 == out[j].0 && front[j].2 == out[j].2);
            }
        }
    }
}

proof fn lemma_sweep_in_order(f: Sampler, g: Seq<i64>, k: nat)
    requires
        strictly_ascending(g),
        k < g.len(),
        sweep(f, g, k) is Ok,
    ensures
        in_order(sweep(f, g, k)->Ok_0, g[0], g[k as int]),
    decreases k,
{
    if k > 0 {
        let m = (k - 1) as nat;
        lemma_sweep_in_order(f, g, m);
        let front = sweep(f, g, m)->Ok_0;
        let segs = sweep(f, g, k)->Ok_0;
        assert(g[m as int] < g[k as int]);
        if m > 0 {
            assert(g[0] < g[m as int]);
        }
        assert forall|i: int| 0 <= i < segs.len() implies g[0] <= (#[trigger] segs[i]).0
            < segs[i].1 <= g[k as int] by {
            if i < front.len() {
                assert(g[0] <= front[i].0 < front[i].1 <= g[m as int]);
            }
        }
        assert forall|i: int, j: int|
            #![trigger segs[i], segs[j]]
            0 <= i < j < segs.len() implies segs[i].1 <= segs[j].0 by {
            assert(front[i].1 <= g[m as int]);
            if j < front.len() {
                assert(front[i].1 <= front[j].0);
            }
        }
    }
}

proof fn lemma_range_in_order(
    env: Env,
    name: Seq<char>,
    from: i64,
    end: i64,
    filter: Option<&Expr>,
    fuel: nat,
)
    requires
        from < end,
        range_of(env, name, from, end, filter, fuel) is Ok,
    ensures
        in_order(range_of(env, name, from, end, filter, fuel)->Ok_0, from, end),
        is_coarse(range_of(env, name, from, end, filter, fuel)->Ok_0),
{
    let bounds = range_bounds(env, name, from, end, filter, fuel)->Ok_0;
    let g = grid(bounds, from, end);
    let f = kept_at(env, name, filter, fuel);
    lemma_lens_bounds_inside(env, name, from, end, fuel);
    if let Some(e) = filter {
        lemma_expr_bounds_inside(env, e, from, end, fuel);
    }
    lemma_grid_is(bounds, from, end);
    lemma_grid_neighbours(g, bounds, from, end);
    lemma_sweep_in_order(f, g, (g.len() - 1) as nat);
    lemma_joined_coarse(sweep(f, g, (g.len() - 1) as nat)->Ok_0, from, end);
}

/// The stretches of a window lie in it, follow each other, and are as long as can be: where one
/// ends as the next begins, their values differ.
pub proof fn law_range_is_in_order(
    databases: Databases,
    active: Option<Seq<char>>,
    name: String,
    start: i64,
    end: i64,
    filter: Option<Expr>,
    limit: Option<u64>,
    offset: Option<u64>,
    inputs: &Inputs,
    r: Result<Output, ExecError>,
)
    requires
        active is Some,
        databases.contains_key(active->0),
        answers(
            databases,
            active,
            &Stmt::Range { name, start, end, filter, limit, offset },
            inputs,
            r,
        ),
    ensures
        r matches Ok(o) ==> (o matches Output::Range(segs) && in_order(segs@, start, end)
            && is_coarse(segs@)),
        start >= end ==> r is Err && r->Err_0@ == ExecErrorV::InvalidRange,
{
    if r is Ok && start < end {
        let s = databases[active->0];
        let page = r->Ok_0->Range_0@;
        let f: Option<&Expr> = match filter {
            Some(e) => Some(&e),
            None => None,
        };
        let from = s.window_start(name@, start, inputs);
        law_pages_of_a_range(
            databases,
            active,
            name,
            start,
            end,
            filter,
            limit,
            offset,
            inputs,
            r,
        );
        if from < end {
            let all = choose|all: Seq<Segment<Value>>|
                is_page(all, offset, limit, page) && #[trigger] shown_in_all(
                    s,
                    name@,
                    start,
                    end,
                    filter,
                    inputs,
                    all,
                );
            if filter is None && s.types.contains_key(name@) {
                let p = probe(stack_of(s.db.stacks, name@), Seq::empty(), None);
                let whole = choose|whole: Seq<Segment<Value>>| #[trigger]
                    traces(whole, p, from as int, end as int) && all == window_of(
                        whole,
                        None,
                        None,
                    );
                assert(whole.skip(0) =~= whole);
            } else {
                let whole = range_of(s.env(inputs), name@, from, end, f, s.fuel())->Ok_0;
                assert(whole.skip(0) =~= whole);
                lemma_range_in_order(s.env(inputs), name@, from, end, f, s.fuel());
            }
            assert(in_order(all, from, end) && is_coarse(all));
            let n = match offset {
                Some(n) => n as int,
                None => 0,
            };
            assert forall|i: int| 0 <= i < page.len() implies start <= (#[trigger] page[i]).0
                < page[i].1 <= end by {
                assert(page[i] == all[n + i]);
            }
            assert forall|i: int, j: int|
                #![trigger page[i], page[j]]
                0 <= i < j < page.len() implies page[i].1 <= page[j].0 by {
                assert(page[i] == all[n + i] && page[j] == all[n + j]);
            }
            assert forall|i: int, j: int|
                #![trigger page[i], page[j]]
                0 <= i && j == i + 1 && j < page.len() && page[i].1 == page[j].0 implies !page[
            i].2.alike(&page[j].2) by {
                assert(page[i] == all[n + i] && page[j] == all[n + j]);
            }
        }
    }
}

} // verus!
