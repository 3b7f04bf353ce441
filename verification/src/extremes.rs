//! What compaction leaves of aggregates: the least and the greatest value of a window.

use crate::ast::AggFunc;
use crate::error::ExecErrorV;
use crate::eval::{
    agg_over, aggregate, cutoff_of, cutoffs, ends, expired, grid, lens_at, lens_bounds, samples, sweep,
    weights, Env, Sampler,
};
use crate::floats::FloatTable;
use crate::inputs::Inputs;
use crate::layers::{
    agree, compacted, generation_start, is_end, law_compaction_preserves_lookups,
    lemma_generation_start_range, newest, stack_empty, stack_one_axis, stack_wf,
    strictly_ascending, Segment,
};
use crate::memory::stack_of;
use crate::model::{Datum, Layer};
use crate::ops::{min_max_fold, Weighted};
use crate::query::{range_allowed, reduce_of};
use crate::state::StateV;
use crate::value::{float_eq, float_is_nan, float_key, Value};
use crate::windows::{
    answers_agree, at_sampler, constant_between, in_segment, lemma_base_constant, lemma_grid_is,
    lemma_grid_neighbours, lemma_lens_bounds_inside, lemma_sweep_shows, shows_exactly,
};
use vstd::prelude::*;

verus! {

/// All that is shown from `start` up to `end` is integers, or all of it is floats.
pub open spec fn numbers_of_a_kind(f: Sampler, start: i64, end: i64) -> bool {
    ||| forall|t: i64|
        start <= t < end ==> match #[trigger] f(t) {
            Ok(Some(v)) => v is Int,
            _ => true,
        }
    ||| forall|t: i64|
        start <= t < end ==> match #[trigger] f(t) {
            Ok(Some(v)) => v is Float,
            _ => true,
        }
}

/// The least of integers, or the greatest.
proof fn lemma_int_extreme(segs: Seq<Weighted>, want_max: bool, floats: &FloatTable)
    requires
        segs.len() > 0,
        forall|i: int| 0 <= i < segs.len() ==> (#[trigger] segs[i]).1 is Int,
    ensures
        min_max_fold(segs, want_max, floats) matches Ok(Value::Int(x)) && (exists|i: int|
            0 <= i < segs.len() && (#[trigger] segs[i]).1 == Value::Int(x)) && forall|i: int|
            0 <= i < segs.len() ==> if want_max {
                (#[trigger] segs[i]).1->Int_0 <= x
            } else {
                segs[i].1->Int_0 >= x
            },
    decreases segs.len(),
{
    let n = segs.len() - 1;
    if n == 0 {
        assert(segs[0].1 is Int);
        assert(segs[0].1 == Value::Int(segs[0].1->Int_0));
    } else {
        let less = segs.drop_last();
        assert forall|i: int| 0 <= i < less.len() implies (#[trigger] less[i]).1 is Int by {
            assert(segs[i].1 is Int);
        }
        lemma_int_extreme(less, want_max, floats);
        let x = min_max_fold(less, want_max, floats)->Ok_0->Int_0;
        let k = choose|k: int| 0 <= k < less.len() && (#[trigger] less[k]).1 == Value::Int(x);
        assert(segs[k].1 == Value::Int(x));
        assert(segs[n].1 is Int);
        assert(segs[n].1 == Value::Int(segs[n].1->Int_0));
        let y = min_max_fold(segs, want_max, floats)->Ok_0->Int_0;
        assert forall|i: int| 0 <= i < segs.len() implies if want_max {
            (#[trigger] segs[i]).1->Int_0 <= y
        } else {
            segs[i].1->Int_0 >= y
        } by {
            if i < n {
                assert(less[i] == segs[i]);
            }
        }
    }
}

/// The least of floats, or the greatest; where none is a number, the last.
proof fn lemma_float_extreme(segs: Seq<Weighted>, want_max: bool, floats: &FloatTable)
    requires
        segs.len() > 0,
        forall|i: int| 0 <= i < segs.len() ==> (#[trigger] segs[i]).1 is Float,
    ensures
        min_max_fold(segs, want_max, floats) matches Ok(Value::Float(x)) && (exists|i: int|
            0 <= i < segs.len() && (#[trigger] segs[i]).1 == Value::Float(x)) && if float_is_nan(
            x,
        ) {
            segs.last().1 == Value::Float(x) && forall|i: int|
                0 <= i < segs.len() ==> float_is_nan((#[trigger] segs[i]).1->Float_0)
        } else {
            forall|i: int|
                0 <= i < segs.len() ==> float_is_nan((#[trigger] segs[i]).1->Float_0) || if want_max {
                    float_key(segs[i].1->Float_0) <= float_key(x)
                } else {
                    float_key(segs[i].1->Float_0) >= float_key(x)
                }
        },
    decreases segs.len(),
{
    let n = segs.len() - 1;
    assert(segs[n].1 is Float);
    assert(segs[n].1 == Value::Float(segs[n].1->Float_0));
    if n > 0 {
        let less = segs.drop_last();
        assert forall|i: int| 0 <= i < less.len() implies (#[trigger] less[i]).1 is Float by {
            assert(segs[i].1 is Float);
        }
        lemma_float_extreme(less, want_max, floats);
        let x = min_max_fold(less, want_max, floats)->Ok_0->Float_0;
        let k = choose|k: int| 0 <= k < less.len() && (#[trigger] less[k]).1 == Value::Float(x);
        assert(segs[k].1 == Value::Float(x));
        assert forall|i: int| 0 <= i < n implies segs[i] == #[trigger] less[i] by {}
        let y = min_max_fold(segs, want_max, floats)->Ok_0->Float_0;
        if float_is_nan(y) {
            assert forall|i: int| 0 <= i < segs.len() implies float_is_nan(
                (#[trigger] segs[i]).1->Float_0,
            ) by {
                if i < n {
                    assert(less[i] == segs[i]);
                }
            }
        } else {
            assert forall|i: int| 0 <= i < segs.len() implies float_is_nan(
                (#[trigger] segs[i]).1->Float_0,
            ) || if want_max {
                float_key(segs[i].1->Float_0) <= float_key(y)
            } else {
                float_key(segs[i].1->Float_0) >= float_key(y)
            } by {
                if i < n {
                    assert(less[i] == segs[i]);
                }
            }
        }
    }
}

/// What a sweep yields comes from the function, and nothing follows its last stretch.
proof fn lemma_sweep_values(f: Sampler, g: Seq<i64>, k: nat)
    requires
        strictly_ascending(g),
        k < g.len(),
        sweep(f, g, k) is Ok,
        constant_between(f, g, k),
    ensures
        forall|i: int|
            0 <= i < sweep(f, g, k)->Ok_0.len() ==> {
                let s = #[trigger] sweep(f, g, k)->Ok_0[i];
                &&& g[0] <= s.0 < s.1 <= g[k as int]
                &&& f(s.0) == Ok::<Option<Value>, ExecErrorV>(Some(s.2))
            },
        sweep(f, g, k)->Ok_0.len() > 0 ==> {
            let s = sweep(f, g, k)->Ok_0.last();
            &&& f((s.1 - 1) as i64) == Ok::<Option<Value>, ExecErrorV>(Some(s.2))
            &&& forall|t: i64|
                s.1 <= t < g[k as int] ==> #[trigger] f(t) == Ok::<Option<Value>, ExecErrorV>(None)
        },
    decreases k,
{
    if k > 0 {
        let m = (k - 1) as nat;
        lemma_sweep_values(f, g, m);
        let front = sweep(f, g, m)->Ok_0;
        let segs = sweep(f, g, k)->Ok_0;
        let (a, b) = (g[m as int], g[k as int]);
        assert(a < b);
        if m > 0 {
            assert(g[0] < g[m as int]);
        }
        assert forall|i: int| 0 <= i < segs.len() implies {
            let s = #[trigger] segs[i];
            &&& g[0] <= s.0 < s.1 <= b
            &&& f(s.0) == Ok::<Option<Value>, ExecErrorV>(Some(s.2))
        } by {
            if i < front.len() {
                assert(segs[i] == front[i]);
            }
        }
        if segs.len() > 0 {
            let s = segs.last();
            if let Some(v) = f(a)->Ok_0 {
                let t = (b - 1) as i64;
                assert(f(t) == f(g[m as int]));
            } else {
                assert(segs == front);
                assert forall|t: i64| s.1 <= t < b implies #[trigger] f(t) == Ok::<
                    Option<Value>,
                    ExecErrorV,
                >(None) by {
                    if t >= a {
                        assert(f(t) == f(g[m as int]));
                    }
                }
            }
        }
    }
}

/// What sampling at the starts of stretches yields of a function from `start` up to `end`.
#[verifier::opaque]
spec fn sampled(segs: Seq<Segment<Value>>, f: Sampler, start: i64, end: i64) -> bool {
    &&& shows_exactly(segs, f, start, end)
    &&& forall|i: int|
        0 <= i < segs.len() ==> f((#[trigger] segs[i]).0) == Ok::<Option<Value>, ExecErrorV>(
            Some(segs[i].2),
        )
    &&& segs.len() > 0 ==> {
        &&& f((segs.last().1 - 1) as i64) == Ok::<Option<Value>, ExecErrorV>(
            Some(segs.last().2),
        )
        &&& forall|t: i64|
            segs.last().1 <= t < end ==> #[trigger] f(t) == Ok::<Option<Value>, ExecErrorV>(None)
    }
}

proof fn lemma_sampled_from(segs: Seq<Segment<Value>>, f: Sampler, start: i64, end: i64, i: int)
    requires
        sampled(segs, f, start, end),
        0 <= i < segs.len(),
    ensures
        start <= segs[i].0 < segs[i].1 <= end,
        f(segs[i].0) == Ok::<Option<Value>, ExecErrorV>(Some(segs[i].2)),
{
    reveal(sampled);
}

proof fn lemma_sampled_at(segs: Seq<Segment<Value>>, f: Sampler, start: i64, end: i64, t: i64)
    requires
        sampled(segs, f, start, end),
        start <= t < end,
        f(t)->Ok_0 is Some,
    ensures
        exists|i: int| 0 <= i < segs.len() && (#[trigger] segs[i]).2 == f(t)->Ok_0->0,
{
    reveal(sampled);
    let v = f(t)->Ok_0->0;
    let i = choose|i: int| #[trigger] in_segment(segs, i, t) && segs[i].2 == v;
    assert(segs[i].2 == v);
}

proof fn lemma_sampled_last(segs: Seq<Segment<Value>>, f: Sampler, start: i64, end: i64, t: i64)
    requires
        sampled(segs, f, start, end),
        segs.len() > 0,
    ensures
        start <= segs.last().0 < segs.last().1 <= end,
        f((segs.last().1 - 1) as i64) == Ok::<Option<Value>, ExecErrorV>(Some(segs.last().2)),
        segs.last().1 <= t < end ==> f(t) == Ok::<Option<Value>, ExecErrorV>(None),
{
    reveal(sampled);
    assert(segs[segs.len() - 1].0 < segs[segs.len() - 1].1);
}

/// Two functions say the same from `start` up to `end`.
spec fn say_alike(f: Sampler, g: Sampler, start: i64, end: i64) -> bool {
    forall|t: i64|
        #![trigger f(t)]
        #![trigger g(t)]
        start <= t < end ==> f(t) is Ok && g(t) is Ok && agree(f(t)->Ok_0, g(t)->Ok_0)
}

/// Whatever one function was sampled with, the other was too.
proof fn lemma_sampled_in_both(
    a: Seq<Segment<Value>>,
    b: Seq<Segment<Value>>,
    f: Sampler,
    g: Sampler,
    start: i64,
    end: i64,
    i: int,
)
    requires
        sampled(a, f, start, end),
        sampled(b, g, start, end),
        say_alike(f, g, start, end),
        0 <= i < a.len(),
    ensures
        exists|j: int| 0 <= j < b.len() && agree(Some(a[i].2), Some((#[trigger] b[j]).2)),
{
    let t = a[i].0;
    lemma_sampled_from(a, f, start, end, i);
    assert(agree(f(t)->Ok_0, g(t)->Ok_0));
    lemma_sampled_at(b, g, start, end, t);
}

/// Where one function is sampled with nothing but what is not a number, so is the other, and
/// the last of both is the same.
proof fn lemma_last_not_a_number(
    a: Seq<Segment<Value>>,
    b: Seq<Segment<Value>>,
    f: Sampler,
    g: Sampler,
    start: i64,
    end: i64,
)
    requires
        sampled(a, f, start, end),
        sampled(b, g, start, end),
        say_alike(f, g, start, end),
        a.len() > 0,
        b.len() > 0,
        a.last().2 matches Value::Float(x) && float_is_nan(x),
    ensures
        b.last().2 == a.last().2,
{
    let (u, v) = ((a.last().1 - 1) as i64, (b.last().1 - 1) as i64);
    lemma_sampled_last(a, f, start, end, v);
    lemma_sampled_last(b, g, start, end, u);
    assert(agree(f(u)->Ok_0, g(u)->Ok_0));
    assert(agree(f(v)->Ok_0, g(v)->Ok_0));
    assert(u == v);
}

proof fn lemma_extremes_agree(
    a: Seq<Segment<Value>>,
    b: Seq<Segment<Value>>,
    f: Sampler,
    g: Sampler,
    start: i64,
    end: i64,
    want_max: bool,
    floats: &FloatTable,
)
    requires
        sampled(a, f, start, end),
        sampled(b, g, start, end),
        say_alike(f, g, start, end),
        numbers_of_a_kind(f, start, end),
    ensures
        a.len() == 0 <==> b.len() == 0,
        a.len() > 0 ==> {
            let x = min_max_fold(weights(a), want_max, floats);
            let y = min_max_fold(weights(b), want_max, floats);
            x is Ok && y is Ok && agree(Some(x->Ok_0), Some(y->Ok_0))
        },
{
    assert(say_alike(g, f, start, end)) by {
        assert forall|t: i64| start <= t < end implies (#[trigger] f(t)) is Ok && g(t) is Ok
            && agree(g(t)->Ok_0, f(t)->Ok_0) by {
            assert(agree(f(t)->Ok_0, g(t)->Ok_0));
        }
    }
    if a.len() > 0 {
        lemma_sampled_in_both(a, b, f, g, start, end, 0);
    }
    if b.len() > 0 {
        lemma_sampled_in_both(b, a, g, f, start, end, 0);
    }
    if a.len() > 0 {
        let (p, q) = (weights(a), weights(b));
        assert forall|i: int| 0 <= i < a.len() implies (#[trigger] p[i]).1 == a[i].2 && start
            <= a[i].0 < end && f(a[i].0) == Ok::<Option<Value>, ExecErrorV>(Some(a[i].2)) by {
            lemma_sampled_from(a, f, start, end, i);
        }
        assert forall|i: int| 0 <= i < b.len() implies (#[trigger] q[i]).1 == b[i].2 && start
            <= b[i].0 < end && agree(f(b[i].0)->Ok_0, Some(b[i].2)) by {
            lemma_sampled_from(b, g, start, end, i);
            assert(agree(f(b[i].0)->Ok_0, g(b[i].0)->Ok_0));
        }
        let ints = forall|t: i64|
            start <= t < end ==> match #[trigger] f(t) {
                Ok(Some(v)) => v is Int,
                _ => true,
            };
        if ints {
            lemma_int_extreme(p, want_max, floats);
            lemma_int_extreme(q, want_max, floats);
            let (x, y) = (
                min_max_fold(p, want_max, floats)->Ok_0->Int_0,
                min_max_fold(q, want_max, floats)->Ok_0->Int_0,
            );
            let i = choose|i: int| 0 <= i < p.len() && (#[trigger] p[i]).1 == Value::Int(x);
            lemma_sampled_in_both(a, b, f, g, start, end, i);
            let j = choose|j: int|
                0 <= j < b.len() && agree(Some(a[i].2), Some((#[trigger] b[j]).2));
            assert(q[j].1 == b[j].2);
            let k = choose|k: int| 0 <= k < q.len() && (#[trigger] q[k]).1 == Value::Int(y);
            lemma_sampled_in_both(b, a, g, f, start, end, k);
            let l = choose|l: int|
                0 <= l < a.len() && agree(Some(b[k].2), Some((#[trigger] a[l]).2));
            assert(p[l].1 == a[l].2);
            assert(x == y);
        } else {
            lemma_float_extreme(p, want_max, floats);
            lemma_float_extreme(q, want_max, floats);
            let (x, y) = (
                min_max_fold(p, want_max, floats)->Ok_0->Float_0,
                min_max_fold(q, want_max, floats)->Ok_0->Float_0,
            );
            let i = choose|i: int| 0 <= i < p.len() && (#[trigger] p[i]).1 == Value::Float(x);
            lemma_sampled_in_both(a, b, f, g, start, end, i);
            let j = choose|j: int|
                0 <= j < b.len() && agree(Some(a[i].2), Some((#[trigger] b[j]).2));
            assert(q[j].1 == b[j].2);
            let k = choose|k: int| 0 <= k < q.len() && (#[trigger] q[k]).1 == Value::Float(y);
            lemma_sampled_in_both(b, a, g, f, start, end, k);
            let l = choose|l: int|
                0 <= l < a.len() && agree(Some(b[k].2), Some((#[trigger] a[l]).2));
            assert(p[l].1 == a[l].2);
            assert(p.last().1 == a.last().2 && q.last().1 == b.last().2);
            if float_is_nan(x) {
                lemma_last_not_a_number(a, b, f, g, start, end);
                assert(float_is_nan(y));
            } else {
                assert(!float_is_nan(y));
                assert(float_key(x) == float_key(y));
                assert(float_eq(x, y));
            }
        }
    }
}

/// A base lens does not change between neighbours of its grid.
proof fn lemma_base_on_grid(env: Env, lens: Seq<char>, start: i64, end: i64, fuel: nat)
    requires
        env.types.contains_key(lens),
        stack_wf(stack_of(env.stacks, lens)),
        start < end,
    ensures
        ({
            let g = grid(lens_bounds(env, lens, start, end, fuel)->Ok_0, start, end);
            &&& strictly_ascending(g)
            &&& g.len() > 0
            &&& g[0] == start
            &&& g.last() == end
            &&& constant_between(
                |t: i64| lens_at(env, lens, t, fuel),
                g,
                (g.len() - 1) as nat,
            )
        }),
{
    let f: Sampler = |t: i64| lens_at(env, lens, t, fuel);
    let bounds = lens_bounds(env, lens, start, end, fuel)->Ok_0;
    let g = grid(bounds, start, end);
    lemma_lens_bounds_inside(env, lens, start, end, fuel);
    lemma_grid_is(bounds, start, end);
    lemma_grid_neighbours(g, bounds, start, end);
    assert forall|j: int, t: i64|
        #![trigger g[j], f(t)]
        0 <= j < g.len() - 1 && g[j] <= t < g[j + 1] implies f(t) == f(g[j]) by {
        assert(start <= g[j] && g[j + 1] <= end);
        if let Some(c) = cutoff_of(env.ttl, env.now, lens) {
            assert(cutoffs(env, lens, start, end).contains(c) <==> start < c < end);
            assert(start < c < end ==> bounds.contains(c));
        }
        assert forall|x: i64|
            #![trigger is_end(stack_of(env.stacks, lens), x)]
            start < x < end && is_end(stack_of(env.stacks, lens), x) implies !(g[j] < x < g[j
            + 1]) by {
            assert(ends(env, lens, start, end).contains(x));
            assert(bounds.contains(x));
        }
        lemma_base_constant(env, lens, start, end, g[j], g[j + 1], t);
    }
}

/// What a sweep over a grid yields is what the function is sampled with.
proof fn lemma_sweep_sampled(f: Sampler, g: Seq<i64>)
    requires
        strictly_ascending(g),
        g.len() > 0,
        sweep(f, g, (g.len() - 1) as nat) is Ok,
        constant_between(f, g, (g.len() - 1) as nat),
    ensures
        sampled(sweep(f, g, (g.len() - 1) as nat)->Ok_0, f, g[0], g.last()),
{
    lemma_sweep_shows(f, g, (g.len() - 1) as nat);
    lemma_sweep_values(f, g, (g.len() - 1) as nat);
    reveal(sampled);
}

/// What a base lens is sampled with in a window.
proof fn lemma_base_sampled(env: Env, lens: Seq<char>, start: i64, end: i64, fuel: nat) -> (segs:
    Seq<Segment<Value>>)
    requires
        env.types.contains_key(lens),
        stack_wf(stack_of(env.stacks, lens)),
        start < end,
    ensures
        sampled(segs, |t: i64| lens_at(env, lens, t, fuel), start, end),
        forall|func: AggFunc| #[trigger]
            agg_over(env, lens, func, start, end, fuel) == aggregate(
                func,
                weights(segs),
                &env.floats,
            ),
{
    let f: Sampler = |t: i64| lens_at(env, lens, t, fuel);
    let g = grid(lens_bounds(env, lens, start, end, fuel)->Ok_0, start, end);
    let k = (g.len() - 1) as nat;
    lemma_base_on_grid(env, lens, start, end, fuel);
    lemma_samples_swept(env, lens, g, k, fuel);
    lemma_sweep_ok(env, lens, g, k, fuel);
    lemma_sweep_sampled(f, g);
    sweep(f, g, k)->Ok_0
}

proof fn lemma_samples_swept(env: Env, lens: Seq<char>, g: Seq<i64>, k: nat, fuel: nat)
    ensures
        samples(env, lens, g, k, fuel) == sweep(|t: i64| lens_at(env, lens, t, fuel), g, k),
    decreases k,
{
    if k > 0 {
        lemma_samples_swept(env, lens, g, (k - 1) as nat, fuel);
    }
}

proof fn lemma_sweep_ok(env: Env, lens: Seq<char>, g: Seq<i64>, k: nat, fuel: nat)
    requires
        env.types.contains_key(lens),
    ensures
        sweep(|t: i64| lens_at(env, lens, t, fuel), g, k) is Ok,
    decreases k,
{
    if k > 0 {
        lemma_sweep_ok(env, lens, g, (k - 1) as nat, fuel);
    }
}

/// Two databases whose base lens answers every lookup alike give `REDUCE` with `MIN` or
/// `MAX` of it alike, where all that it shows in the window is integers or all is floats.
pub proof fn lemma_reduce_alike(
    s: StateV,
    other: StateV,
    name: Seq<char>,
    start: i64,
    end: i64,
    func: AggFunc,
    inputs: &Inputs,
)
    requires
        s.types.contains_key(name),
        other.types.contains_key(name),
        s.ttl == other.ttl,
        s.axes == other.axes,
        stack_wf(stack_of(s.db.stacks, name)),
        stack_wf(stack_of(other.db.stacks, name)),
        forall|t: i64|
            agree(
                #[trigger] newest(stack_of(s.db.stacks, name), seq![t], None),
                newest(stack_of(other.db.stacks, name), seq![t], None),
            ),
        func is Min || func is Max,
        numbers_of_a_kind(at_sampler(s, name, inputs), start, end),
    ensures
        answers_agree(
            reduce_of(s, name, start, end, func, inputs),
            reduce_of(other, name, start, end, func, inputs),
        ),
{
    let from = s.window_start(name, start, inputs);
    assert(from == other.window_start(name, start, inputs));
    assert(s.arity(name) == other.arity(name));
    if range_allowed(s, name, start, end, "REDUCE"@) is Ok && from < end {
        let (a, b) = (s.env(inputs), other.env(inputs));
        let (m, n) = (s.fuel(), other.fuel());
        let (f, g): (Sampler, Sampler) = (
            |t: i64| lens_at(a, name, t, m),
            |t: i64| lens_at(b, name, t, n),
        );
        let one = lemma_base_sampled(a, name, from, end, m);
        let two = lemma_base_sampled(b, name, from, end, n);
        assert forall|t: i64|
            #![trigger f(t)]
            #![trigger g(t)]
            from <= t < end implies f(t) is Ok && g(t) is Ok && agree(f(t)->Ok_0, g(t)->Ok_0) by {
            assert(expired(a, name, t) == expired(b, name, t));
            assert(agree(
                newest(stack_of(s.db.stacks, name), seq![t], None),
                newest(stack_of(other.db.stacks, name), seq![t], None),
            ));
        }
        assert(say_alike(f, g, from, end));
        let at = at_sampler(s, name, inputs);
        assert forall|t: i64| from <= t < end implies (#[trigger] f(t) matches Ok(Some(v)) ==> at(
            t,
        ) == f(t)) by {}
        assert(numbers_of_a_kind(f, from, end));
        lemma_extremes_agree(one, two, f, g, from, end, func is Max, &inputs.floats);
        assert(agg_over(a, name, func, from, end, m) is Ok);
        assert(agg_over(b, name, func, from, end, n) is Ok);
    }
}

/// Compaction keeps well-formed stacks well formed.
pub proof fn lemma_compacted_wf<V: Datum>(before: Seq<Layer<V>>, after: Seq<Layer<V>>)
    requires
        compacted(before, after),
        stack_wf(before),
    ensures
        stack_wf(after),
    decreases before.len(),
{
    if before.len() > 0 {
        lemma_generation_start_range(before);
        let k = generation_start(before);
        let group = before.skip(k);
        let head = before.take(k);
        assert forall|i: int| 0 <= i < head.len() implies (#[trigger] head[i]).wf() by {
            assert(before[i].wf());
        }
        if !stack_one_axis(group) {
            let m = after.len() - group.len();
            lemma_compacted_wf(head, after.take(m));
            assert forall|i: int| 0 <= i < after.len() implies (#[trigger] after[i]).wf() by {
                if i < m {
                    assert(after.take(m)[i] == after[i]);
                } else {
                    assert(after.skip(m)[i - m] == after[i]);
                    assert(group[i - m] == before[k + i - m]);
                    assert(before[k + i - m].wf());
                }
            }
        } else if stack_empty(group) {
            lemma_compacted_wf(head, after);
        } else {
            lemma_compacted_wf(head, after.drop_last());
            assert forall|i: int| 0 <= i < after.len() implies (#[trigger] after[i]).wf() by {
                if i < after.len() - 1 {
                    assert(after.drop_last()[i] == after[i]);
                }
            }
        }
    }
}

/// Compaction keeps what `REDUCE` with `MIN` or `MAX` says of a base lens, up to values that
/// count as equal, where all that the lens shows in the window is integers or all is floats.
pub proof fn law_compaction_keeps_extremes(
    s: StateV,
    after: StateV,
    name: Seq<char>,
    start: i64,
    end: i64,
    func: AggFunc,
    inputs: &Inputs,
)
    requires
        s.types.contains_key(name),
        after.types.contains_key(name),
        after.ttl == s.ttl,
        after.axes == s.axes,
        stack_wf(stack_of(s.db.stacks, name)),
        compacted(stack_of(s.db.stacks, name), stack_of(after.db.stacks, name)),
        func is Min || func is Max,
        numbers_of_a_kind(at_sampler(s, name, inputs), start, end),
    ensures
        answers_agree(
            reduce_of(s, name, start, end, func, inputs),
            reduce_of(after, name, start, end, func, inputs),
        ),
{
    let (old_stack, new_stack) = (
        stack_of(s.db.stacks, name),
        stack_of(after.db.stacks, name),
    );
    lemma_compacted_wf(old_stack, new_stack);
    assert forall|t: i64| agree(
        #[trigger] newest(old_stack, seq![t], None),
        newest(new_stack, seq![t], None),
    ) by {
        law_compaction_preserves_lookups(old_stack, new_stack, seq![t], None);
    }
    lemma_reduce_alike(s, after, name, start, end, func, inputs);
}

} // verus!
