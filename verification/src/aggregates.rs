//! What aggregates of a lens over a window yield.

use crate::ast::{AggFunc, Expr, Stmt};
use crate::error::{ExecError, ExecErrorV};
use crate::eval::{
    agg_over, aggregate, cutoffs, ends, expr_at, grid, lens_at, lens_bounds, samples,
    weights, Env,
};
use crate::floats::{FloatTable, FloatTaskV};
use crate::inputs::Inputs;
use crate::layers::{among, is_end, strictly_ascending, Segment};
use crate::lookups::{seconds, Databases};
use crate::memory::stack_of;
use crate::model::Layer;
use crate::operators::{below, host_gives, not_a_number, wraps_to};
use crate::ops::{min_max_fold, min_max_of, sum_of, total_of, weighted_sum_of, Weighted};
use crate::output::Output;
use crate::query::{at_of, reduce_of};
use crate::read::answers;
use crate::state::StateV;
use crate::value::Value;
use crate::windows::{
    env_wf, lemma_grid_is, lemma_grid_neighbours, lemma_lens_bounds_inside, lemma_lens_constant,
    steady_lens,
};
use vstd::prelude::*;

verus! {

/// The float that a number counts as: itself, or what the host makes of an integer.
pub open spec fn as_number(floats: &FloatTable, v: Value) -> Option<u64> {
    match v {
        Value::Int(i) => floats.result(FloatTaskV::FromInt(i)),
        Value::Float(bits) => Some(bits),
        _ => None,
    }
}

/// The third value is the sum of the first two: of integers up to the size of a word, and
/// otherwise the host's.
pub open spec fn adds(floats: &FloatTable, a: Value, v: Value, b: Value) -> bool {
    match (a, v) {
        (Value::Int(x), Value::Int(y)) => b matches Value::Int(z) && wraps_to(x + y, z),
        _ => {
            &&& as_number(floats, a) is Some
            &&& as_number(floats, v) is Some
            &&& b is Float
            &&& floats.result(
                FloatTaskV::Sum(as_number(floats, a)->0, as_number(floats, v)->0),
            ) == Some(b->Float_0)
        },
    }
}

/// The third value is the greater of the first two, or the lesser. What is not a number gives
/// way.
pub open spec fn picks(
    floats: &FloatTable,
    want_max: bool,
    a: Value,
    v: Value,
    b: Value,
) -> bool {
    match (a, v) {
        (Value::Int(x), Value::Int(y)) => b == Value::Int(
            if want_max == (x < y) {
                y
            } else {
                x
            },
        ),
        _ => {
            &&& as_number(floats, a) is Some
            &&& as_number(floats, v) is Some
            &&& {
                let (x, y) = (as_number(floats, a)->0, as_number(floats, v)->0);
                b == Value::Float(
                    if not_a_number(x) {
                        y
                    } else if not_a_number(y) {
                        x
                    } else if want_max {
                        if below(x, y) {
                            y
                        } else {
                            x
                        }
                    } else if below(y, x) {
                        y
                    } else {
                        x
                    },
                )
            }
        },
    }
}

/// Why an aggregate has no result: a value that is no number, or a task that the host has not
/// done yet.
pub open spec fn is_excused(segs: Seq<Segment<Value>>, floats: &FloatTable, e: ExecErrorV) -> bool {
    ||| e is InvalidExpr && exists|i: int|
        0 <= i < segs.len() && !((#[trigger] segs[i]).2 is Int) && !(segs[i].2 is Float)
    ||| e matches ExecErrorV::Pending(task) && floats.result(task) is None && match task {
        FloatTaskV::FromInt(_) => true,
        FloatTaskV::Sum(_, _) => true,
        FloatTaskV::Product(_, _) => true,
        FloatTaskV::Quotient(_, _) => true,
        _ => false,
    }
}

/// The running sums: from zero on, each by one value more.
pub open spec fn sums_up(segs: Seq<Segment<Value>>, floats: &FloatTable, sums: Seq<Value>) -> bool {
    &&& sums.len() == segs.len() + 1
    &&& sums[0] == Value::Int(0)
    &&& forall|i: int, j: int|
        #![trigger sums[i], sums[j]]
        0 <= i < segs.len() && j == i + 1 ==> adds(floats, sums[i], segs[i].2, sums[j])
}

/// The running extremes: from the first value on, each by one value more.
pub open spec fn narrows(
    segs: Seq<Segment<Value>>,
    want_max: bool,
    floats: &FloatTable,
    picked: Seq<Value>,
) -> bool {
    &&& picked.len() == segs.len()
    &&& picked[0] == segs[0].2
    &&& forall|i: int, j: int|
        #![trigger picked[i], picked[j]]
        0 <= i && j == i + 1 && j < segs.len() ==> picks(
            floats,
            want_max,
            picked[i],
            segs[j].2,
            picked[j],
        )
}

/// The length of a stretch that a word holds.
pub open spec fn length(seg: Segment<Value>) -> i64 {
    if seg.1 - seg.0 > i64::MAX {
        i64::MAX
    } else {
        (seg.1 - seg.0) as i64
    }
}

/// The next of the running weighted sums: the last one and the value times its stretch.
pub open spec fn weighs(floats: &FloatTable, a: u64, seg: Segment<Value>, b: u64) -> bool {
    &&& as_number(floats, seg.2) is Some
    &&& floats.result(FloatTaskV::FromInt(length(seg))) is Some
    &&& floats.result(
        FloatTaskV::Product(
            as_number(floats, seg.2)->0,
            floats.result(FloatTaskV::FromInt(length(seg)))->0,
        ),
    ) is Some
    &&& floats.result(
        FloatTaskV::Sum(
            a,
            floats.result(
                FloatTaskV::Product(
                    as_number(floats, seg.2)->0,
                    floats.result(FloatTaskV::FromInt(length(seg)))->0,
                ),
            )->0,
        ),
    ) == Some(b)
}

/// The running weighted sums, from zero on.
pub open spec fn weighs_up(segs: Seq<Segment<Value>>, floats: &FloatTable, sums: Seq<u64>) -> bool {
    &&& sums.len() == segs.len() + 1
    &&& sums[0] == 0
    &&& forall|i: int, j: int|
        #![trigger sums[i], sums[j]]
        0 <= i < segs.len() && j == i + 1 ==> weighs(floats, sums[i], segs[i], sums[j])
}

/// How much time the stretches take in all.
pub open spec fn time_in_all(segs: Seq<Segment<Value>>) -> int
    decreases segs.len(),
{
    if segs.len() == 0 {
        0
    } else {
        time_in_all(segs.drop_last()) + (segs.last().1 - segs.last().0)
    }
}

/// The result is that of the aggregate over the stretches: none without any; their number;
/// the last of the running sums or extremes; the weighted sum divided by the time in all.
pub open spec fn reduces_to(
    func: AggFunc,
    segs: Seq<Segment<Value>>,
    floats: &FloatTable,
    r: Result<Option<Value>, ExecErrorV>,
) -> bool {
    if segs.len() == 0 {
        r == Ok::<Option<Value>, ExecErrorV>(None)
    } else {
        match (func, r) {
            (AggFunc::Count, _) => r matches Ok(Some(Value::Int(n))) && (n == segs.len() || n
                == i64::MAX && segs.len() > i64::MAX),
            (_, Err(e)) => is_excused(segs, floats, e),
            (AggFunc::Sum, Ok(v)) => v is Some && exists|sums: Seq<Value>| #[trigger]
                sums_up(segs, floats, sums) && sums.last() == v->0,
            (AggFunc::Min, Ok(v)) => v is Some && exists|picked: Seq<Value>| #[trigger]
                narrows(segs, false, floats, picked) && picked.last() == v->0,
            (AggFunc::Max, Ok(v)) => v is Some && exists|picked: Seq<Value>| #[trigger]
                narrows(segs, true, floats, picked) && picked.last() == v->0,
            (AggFunc::Avg, Ok(v)) => time_in_all(segs) <= i64::MAX ==> exists|sums: Seq<u64>|
             #[trigger]
                weighs_up(segs, floats, sums) && {
                    let total = floats.result(FloatTaskV::FromInt(time_in_all(segs) as i64));
                    &&& total is Some
                    &&& v matches Some(Value::Float(mean)) && floats.result(
                        FloatTaskV::Quotient(sums.last(), total->0),
                    ) == Some(mean)
                },
        }
    }
}

proof fn lemma_sums(segs: Seq<Segment<Value>>, floats: &FloatTable)
    ensures
        match sum_of(weights(segs), floats) {
            Ok(v) => exists|sums: Seq<Value>| #[trigger]
                sums_up(segs, floats, sums) && sums.last() == v && (v is Int || v is Float),
            Err(e) => is_excused(segs, floats, e),
        },
    decreases segs.len(),
{
    let w = weights(segs);
    if segs.len() == 0 {
        let sums = seq![Value::Int(0)];
        assert(sums_up(segs, floats, sums));
    } else {
        let less = segs.drop_last();
        let n = segs.len() - 1;
        lemma_sums(less, floats);
        assert(w.drop_last() =~= weights(less));
        assert(w.last().1 == segs[n].2);
        match sum_of(weights(less), floats) {
            Ok(acc) => {
                let sums = choose|sums: Seq<Value>| #[trigger]
                    sums_up(less, floats, sums) && sums.last() == acc && (acc is Int
                        || acc is Float);
                if let Ok(v) = sum_of(w, floats) {
                    let more = sums.push(v);
                    assert(adds(floats, acc, segs[n].2, v));
                    assert forall|i: int, j: int|
                        #![trigger more[i], more[j]]
                        0 <= i < segs.len() && j == i + 1 implies adds(
                        floats,
                        more[i],
                        segs[i].2,
                        more[j],
                    ) by {
                        if i < n {
                            assert(less[i] == segs[i]);
                            assert(adds(floats, sums[i], less[i].2, sums[j]));
                        }
                    }
                    assert(sums_up(segs, floats, more));
                } else {
                    assert(segs[n].2 == segs[n].2);
                }
            },
            Err(e) => {
                lemma_excused_more(segs, floats, e);
            },
        }
    }
}

proof fn lemma_excused_more(segs: Seq<Segment<Value>>, floats: &FloatTable, e: ExecErrorV)
    requires
        segs.len() > 0,
        is_excused(segs.drop_last(), floats, e),
    ensures
        is_excused(segs, floats, e),
{
    let less = segs.drop_last();
    if e is InvalidExpr {
        let i = choose|i: int|
            0 <= i < less.len() && !((#[trigger] less[i]).2 is Int) && !(less[i].2 is Float);
        assert(segs[i] == less[i]);
    }
}

proof fn lemma_pick(a: Value, v: Value, want_max: bool, floats: &FloatTable)
    ensures
        match min_max_of(a, v, want_max, floats) {
            Ok(b) => picks(floats, want_max, a, v, b) && (b is Int || b is Float),
            Err(e) => {
                ||| e is InvalidExpr && (!(a is Int) && !(a is Float) || !(v is Int) && !(
                v is Float))
                ||| e matches ExecErrorV::Pending(FloatTaskV::FromInt(i)) && floats.result(
                    FloatTaskV::FromInt(i),
                ) is None
            },
        },
{
}

proof fn lemma_narrows(segs: Seq<Segment<Value>>, want_max: bool, floats: &FloatTable)
    requires
        segs.len() > 0,
    ensures
        match min_max_fold(weights(segs), want_max, floats) {
            Ok(v) => exists|picked: Seq<Value>| #[trigger]
                narrows(segs, want_max, floats, picked) && picked.last() == v,
            Err(e) => is_excused(segs, floats, e),
        },
        segs.len() > 1 ==> (min_max_fold(weights(segs), want_max, floats) matches Ok(v) ==> v is Int
            || v is Float),
    decreases segs.len(),
{
    let w = weights(segs);
    let n = segs.len() - 1;
    assert(w[0].1 == segs[0].2);
    if n == 0 {
        assert(narrows(segs, want_max, floats, seq![segs[0].2]));
    } else {
        let less = segs.drop_last();
        lemma_narrows(less, want_max, floats);
        assert(w.drop_last() =~= weights(less));
        assert(w.last().1 == segs[n].2);
        match min_max_fold(weights(less), want_max, floats) {
            Ok(acc) => {
                let picked = choose|picked: Seq<Value>| #[trigger]
                    narrows(less, want_max, floats, picked) && picked.last() == acc;
                if n == 1 {
                    assert(acc == picked[0]);
                    assert(picked[0] == less[0].2);
                    assert(acc == segs[0].2);
                }
                lemma_pick(acc, segs[n].2, want_max, floats);
                assert(min_max_fold(w, want_max, floats) == min_max_of(
                    acc,
                    segs[n].2,
                    want_max,
                    floats,
                ));
                match min_max_of(acc, segs[n].2, want_max, floats) {
                    Ok(v) => {
                        let more = picked.push(v);
                        assert(picks(floats, want_max, acc, segs[n].2, v));
                        assert forall|i: int, j: int|
                            #![trigger more[i], more[j]]
                            0 <= i && j == i + 1 && j < segs.len() implies picks(
                            floats,
                            want_max,
                            more[i],
                            segs[j].2,
                            more[j],
                        ) by {
                            if j < n {
                                assert(less[j] == segs[j]);
                                assert(picks(floats, want_max, picked[i], less[j].2, picked[j]));
                            }
                        }
                        assert(narrows(segs, want_max, floats, more));
                    },
                    Err(e) => {
                        assert(segs[n].2 == w.last().1);
                        assert(segs[0].2 == w[0].1);
                    },
                }
            },
            Err(e) => {
                lemma_excused_more(segs, floats, e);
            },
        }
    }
}

proof fn lemma_weighs(segs: Seq<Segment<Value>>, floats: &FloatTable)
    requires
        forall|i: int| 0 <= i < segs.len() ==> (#[trigger] segs[i]).0 < segs[i].1,
    ensures
        match weighted_sum_of(weights(segs), floats) {
            Ok(v) => exists|sums: Seq<u64>| #[trigger]
                weighs_up(segs, floats, sums) && sums.last() == v,
            Err(e) => is_excused(segs, floats, e),
        },
        total_of(weights(segs)) as int == if time_in_all(segs) > i64::MAX {
            i64::MAX as int
        } else {
            time_in_all(segs)
        },
        time_in_all(segs) >= segs.len(),
    decreases segs.len(),
{
    let w = weights(segs);
    if segs.len() == 0 {
        assert(weighs_up(segs, floats, seq![0u64]));
    } else {
        let less = segs.drop_last();
        let n = segs.len() - 1;
        assert forall|i: int| 0 <= i < less.len() implies (#[trigger] less[i]).0 < less[i].1 by {
            assert(less[i] == segs[i]);
        }
        lemma_weighs(less, floats);
        assert(w.drop_last() =~= weights(less));
        assert(segs[n].0 < segs[n].1);
        assert(w.last() == (length(segs[n]), segs[n].2));
        match weighted_sum_of(weights(less), floats) {
            Ok(acc) => {
                let sums = choose|sums: Seq<u64>| #[trigger]
                    weighs_up(less, floats, sums) && sums.last() == acc;
                if let Ok(v) = weighted_sum_of(w, floats) {
                    let more = sums.push(v);
                    assert(weighs(floats, acc, segs[n], v));
                    assert forall|i: int, j: int|
                        #![trigger more[i], more[j]]
                        0 <= i < segs.len() && j == i + 1 implies weighs(
                        floats,
                        more[i],
                        segs[i],
                        more[j],
                    ) by {
                        if i < n {
                            assert(less[i] == segs[i]);
                            assert(weighs(floats, sums[i], less[i], sums[j]));
                        }
                    }
                    assert(weighs_up(segs, floats, more));
                } else {
                    assert(segs[n].2 == w.last().1);
                }
            },
            Err(e) => {
                lemma_excused_more(segs, floats, e);
            },
        }
    }
}

/// What an aggregate of stretches yields.
pub proof fn law_aggregate_of_stretches(
    func: AggFunc,
    segs: Seq<Segment<Value>>,
    floats: &FloatTable,
)
    requires
        forall|i: int| 0 <= i < segs.len() ==> (#[trigger] segs[i]).0 < segs[i].1,
    ensures
        reduces_to(func, segs, floats, aggregate(func, weights(segs), floats)),
{
    if segs.len() > 0 {
        lemma_sums(segs, floats);
        lemma_narrows(segs, false, floats);
        lemma_narrows(segs, true, floats);
        lemma_weighs(segs, floats);
    }
}

/// One more float is added by the host to a sum that is a float.
pub proof fn law_sum_grows(
    segs: Seq<Segment<Value>>,
    seg: Segment<Value>,
    a: u64,
    v: u64,
    floats: &FloatTable,
)
    requires
        aggregate(AggFunc::Sum, weights(segs), floats) == Ok::<Option<Value>, ExecErrorV>(
            Some(Value::Float(a)),
        ),
        seg.2 == Value::Float(v),
    ensures
        host_gives(
            floats,
            FloatTaskV::Sum(a, v),
            aggregate(AggFunc::Sum, weights(segs.push(seg)), floats),
        ),
{
    assert(weights(segs.push(seg)).drop_last() =~= weights(segs));
}

/// A sum depends on no other work of the host than making floats of integers and adding.
pub proof fn law_sum_only_adds(
    segs: Seq<Segment<Value>>,
    floats: &FloatTable,
    others: &FloatTable,
)
    requires
        forall|i: i64|
            #[trigger] floats.result(FloatTaskV::FromInt(i)) == others.result(
                FloatTaskV::FromInt(i),
            ),
        forall|a: u64, b: u64|
            #[trigger] floats.result(FloatTaskV::Sum(a, b)) == others.result(
                FloatTaskV::Sum(a, b),
            ),
    ensures
        aggregate(AggFunc::Sum, weights(segs), floats) == aggregate(
            AggFunc::Sum,
            weights(segs),
            others,
        ),
{
    lemma_sum_only_adds(weights(segs), floats, others);
}

proof fn lemma_sum_only_adds(w: Seq<Weighted>, floats: &FloatTable, others: &FloatTable)
    requires
        forall|i: i64|
            #[trigger] floats.result(FloatTaskV::FromInt(i)) == others.result(
                FloatTaskV::FromInt(i),
            ),
        forall|a: u64, b: u64|
            #[trigger] floats.result(FloatTaskV::Sum(a, b)) == others.result(
                FloatTaskV::Sum(a, b),
            ),
    ensures
        sum_of(w, floats) == sum_of(w, others),
    decreases w.len(),
{
    if w.len() > 0 {
        lemma_sum_only_adds(w.drop_last(), floats, others);
    }
}

/// The whole of a list of integers.
pub open spec fn whole_sum(segs: Seq<Segment<Value>>) -> int
    decreases segs.len(),
{
    if segs.len() == 0 {
        0
    } else {
        whole_sum(segs.drop_last()) + segs.last().2->Int_0
    }
}

/// The sum of integers is exact up to the size of a word, and asks nothing of the host.
pub proof fn law_sum_of_integers(segs: Seq<Segment<Value>>, floats: &FloatTable)
    requires
        segs.len() > 0,
        forall|i: int| 0 <= i < segs.len() ==> (#[trigger] segs[i]).2 is Int,
    ensures
        aggregate(AggFunc::Sum, weights(segs), floats) matches Ok(Some(Value::Int(n))) && wraps_to(
            whole_sum(segs),
            n,
        ),
    decreases segs.len(),
{
    let w = weights(segs);
    let n = segs.len() - 1;
    let less = segs.drop_last();
    assert(w.drop_last() =~= weights(less));
    assert(w.last().1 == segs[n].2);
    assert forall|i: int| 0 <= i < less.len() implies (#[trigger] less[i]).2 is Int by {
        assert(less[i] == segs[i]);
    }
    assert(segs[n].2 is Int);
    let x = segs[n].2->Int_0;
    if n > 0 {
        law_sum_of_integers(less, floats);
    } else {
        assert(less =~= Seq::empty());
        assert(sum_of(weights(less), floats) == Ok::<Value, ExecErrorV>(Value::Int(0)));
    }
    let a = sum_of(weights(less), floats)->Ok_0->Int_0;
    assert(sum_of(weights(less), floats) == Ok::<Value, ExecErrorV>(Value::Int(a)));
    let c = a.wrapping_add(x);
    assert(sum_of(w, floats) == Ok::<Value, ExecErrorV>(Value::Int(c)));
    assert(wraps_to(whole_sum(less), a));
    assert(wraps_to(a + x, c));
    assert(wraps_to(whole_sum(less) + x, c));
}

/// Some value of a stack begins or ends at a time.
pub open spec fn turns(stack: Seq<Layer<Value>>, t: i64) -> bool {
    exists|l: int, k: int|
        #![trigger stack[l].taus@[k]]
        0 <= l < stack.len() && 0 <= k < stack[l].taus@.len() && (stack[l].taus@[k].coords@[0].lo
            == t || stack[l].taus@[k].coords@[0].hi == t)
}

/// The times cut a window into stretches over which `AT LENS` does not change. On a base lens
/// they are the times at which some of its values begins or ends.
pub open spec fn cuts(
    s: StateV,
    name: Seq<char>,
    inputs: &Inputs,
    g: Seq<i64>,
    from: int,
    end: i64,
) -> bool {
    &&& g.len() >= 2
    &&& g[0] == from
    &&& g.last() == end
    &&& forall|i: int, j: int|
        #![trigger g[i], g[j]]
        0 <= i < j < g.len() ==> g[i] < g[j]
    &&& forall|k: int, t: i64|
        #![trigger g[k], at_of(s, name, t, inputs)]
        0 <= k < g.len() - 1 && g[k] <= t < g[k + 1] ==> at_of(s, name, t, inputs) == at_of(
            s,
            name,
            g[k],
            inputs,
        )
    &&& s.types.contains_key(name) ==> forall|t: i64|
        from < t < end ==> (g.contains(t) <==> #[trigger] turns(stack_of(s.db.stacks, name), t))
}

/// The stretch runs between neighbours of the cuts and carries what `AT LENS` gives there.
pub open spec fn is_sample(
    s: StateV,
    name: Seq<char>,
    inputs: &Inputs,
    g: Seq<i64>,
    seg: Segment<Value>,
    k: int,
) -> bool {
    &&& 0 <= k < g.len() - 1
    &&& seg.0 == g[k]
    &&& seg.1 == g[k + 1]
    &&& at_of(s, name, seg.0, inputs) == Ok::<Option<Value>, ExecErrorV>(Some(seg.2))
}

/// The stretch is one of those between the cuts.
pub open spec fn has_sample(
    s: StateV,
    name: Seq<char>,
    inputs: &Inputs,
    g: Seq<i64>,
    seg: Segment<Value>,
) -> bool {
    exists|k: int| #[trigger] is_sample(s, name, inputs, g, seg, k)
}

/// The lens has no value at a time, or a stretch begins there.
pub open spec fn is_accounted(
    s: StateV,
    name: Seq<char>,
    inputs: &Inputs,
    segs: Seq<Segment<Value>>,
    t: i64,
) -> bool {
    ||| at_of(s, name, t, inputs) == Ok::<Option<Value>, ExecErrorV>(None)
    ||| exists|i: int| 0 <= i < segs.len() && (#[trigger] segs[i]).0 == t
}

/// The stretches between the cuts at which the lens has a value, in order.
pub open spec fn are_samples(
    s: StateV,
    name: Seq<char>,
    inputs: &Inputs,
    g: Seq<i64>,
    segs: Seq<Segment<Value>>,
) -> bool {
    &&& forall|i: int|
        0 <= i < segs.len() ==> has_sample(s, name, inputs, g, #[trigger] segs[i])
    &&& forall|i: int, j: int|
        #![trigger segs[i], segs[j]]
        0 <= i < j < segs.len() ==> segs[i].1 <= segs[j].0
    &&& forall|k: int|
        0 <= k < g.len() - 1 ==> is_accounted(s, name, inputs, segs, #[trigger] g[k])
}

/// Where a window on a lens begins: not before its time to live.
pub open spec fn begins(ttl: Map<Seq<char>, i64>, name: Seq<char>, start: i64, now_ms: i64) -> int {
    if ttl.contains_key(name) && seconds(now_ms) - ttl[name] > start {
        seconds(now_ms) - ttl[name]
    } else {
        start as int
    }
}

/// What was answered.
pub open spec fn said(r: Result<Output, ExecError>) -> Result<Option<Value>, ExecErrorV> {
    match r {
        Ok(Output::Value(v)) => Ok(v),
        Ok(_) => Ok(None),
        Err(e) => Err(e@),
    }
}

/// The stretch runs between neighbours among the first of `g` and carries what the lens has
/// there.
spec fn is_taken(
    env: Env,
    lens: Seq<char>,
    g: Seq<i64>,
    k: nat,
    fuel: nat,
    seg: Segment<Value>,
    m: int,
) -> bool {
    &&& 0 <= m < k
    &&& seg.0 == g[m]
    &&& seg.1 == g[m + 1]
    &&& lens_at(env, lens, seg.0, fuel) == Ok::<Option<Value>, ExecErrorV>(Some(seg.2))
}

spec fn some_taken(
    env: Env,
    lens: Seq<char>,
    g: Seq<i64>,
    k: nat,
    fuel: nat,
    seg: Segment<Value>,
) -> bool {
    exists|m: int| #[trigger] is_taken(env, lens, g, k, fuel, seg, m)
}

spec fn begins_one(segs: Seq<Segment<Value>>, t: i64) -> bool {
    exists|i: int| 0 <= i < segs.len() && (#[trigger] segs[i]).0 == t
}

proof fn lemma_samples(env: Env, lens: Seq<char>, g: Seq<i64>, k: nat, fuel: nat)
    requires
        strictly_ascending(g),
        k < g.len(),
        samples(env, lens, g, k, fuel) is Ok,
    ensures
        ({
            let segs = samples(env, lens, g, k, fuel)->Ok_0;
            &&& forall|i: int|
                0 <= i < segs.len() ==> some_taken(env, lens, g, k, fuel, #[trigger] segs[i])
                    && segs[i].1 <= g[k as int]
            &&& forall|i: int, j: int|
                #![trigger segs[i], segs[j]]
                0 <= i < j < segs.len() ==> segs[i].1 <= segs[j].0
            &&& forall|m: int|
                0 <= m < k ==> lens_at(env, lens, #[trigger] g[m], fuel) == Ok::<
                    Option<Value>,
                    ExecErrorV,
                >(None) || begins_one(segs, g[m])
        }),
    decreases k,
{
    if k > 0 {
        let n = (k - 1) as nat;
        lemma_samples(env, lens, g, n, fuel);
        let front = samples(env, lens, g, n, fuel)->Ok_0;
        let segs = samples(env, lens, g, k, fuel)->Ok_0;
        assert(g[n as int] < g[k as int]);
        assert forall|i: int| 0 <= i < segs.len() implies some_taken(
            env,
            lens,
            g,
            k,
            fuel,
            #[trigger] segs[i],
        ) && segs[i].1 <= g[k as int] by {
            if i < front.len() {
                assert(some_taken(env, lens, g, n, fuel, front[i]));
                let m = choose|m: int| #[trigger] is_taken(env, lens, g, n, fuel, front[i], m);
                assert(is_taken(env, lens, g, k, fuel, segs[i], m));
            } else {
                assert(is_taken(env, lens, g, k, fuel, segs[i], n as int));
            }
        }
        assert forall|i: int, j: int|
            #![trigger segs[i], segs[j]]
            0 <= i < j < segs.len() implies segs[i].1 <= segs[j].0 by {
            assert(front[i].1 <= g[n as int]);
            if j < front.len() {
                assert(front[i].1 <= front[j].0);
            }
        }
        assert forall|m: int| 0 <= m < k implies lens_at(env, lens, #[trigger] g[m], fuel) == Ok::<
            Option<Value>,
            ExecErrorV,
        >(None) || begins_one(segs, g[m]) by {
            if m < n {
                if begins_one(front, g[m]) {
                    let i = choose|i: int|
                        0 <= i < front.len() && (#[trigger] front[i]).0 == g[m];
                    assert(segs[i].0 == g[m]);
                }
            } else if segs.len() > front.len() {
                assert(segs[front.len() as int].0 == g[m]);
            }
        }
    }
}

proof fn lemma_samples_ok(env: Env, lens: Seq<char>, g: Seq<i64>, k: nat, fuel: nat)
    requires
        env.types.contains_key(lens),
    ensures
        samples(env, lens, g, k, fuel) is Ok,
    decreases k,
{
    if k > 0 {
        lemma_samples_ok(env, lens, g, (k - 1) as nat, fuel);
        assert(lens_at(env, lens, g[k - 1], fuel) is Ok);
    }
}

/// The grid of a lens cuts its window.
proof fn lemma_grid_cuts(s: StateV, name: Seq<char>, from: i64, end: i64, inputs: &Inputs)
    requires
        env_wf(s.env(inputs)),
        steady_lens(s.env(inputs), name, s.fuel()),
        !s.axes.contains_key(name),
        lens_bounds(s.env(inputs), name, from, end, s.fuel()) is Ok,
        s.cutoff(name, inputs) matches Some(c) ==> c <= from,
        from < end,
    ensures
        cuts(
            s,
            name,
            inputs,
            grid(lens_bounds(s.env(inputs), name, from, end, s.fuel())->Ok_0, from, end),
            from as int,
            end,
        ),
{
    let env = s.env(inputs);
    let fuel = s.fuel();
    let bounds = lens_bounds(env, name, from, end, fuel)->Ok_0;
    let g = grid(bounds, from, end);
    lemma_lens_bounds_inside(env, name, from, end, fuel);
    lemma_grid_is(bounds, from, end);
    lemma_grid_neighbours(g, bounds, from, end);
    assert forall|k: int, t: i64|
        #![trigger g[k], at_of(s, name, t, inputs)]
        0 <= k < g.len() - 1 && g[k] <= t < g[k + 1] implies at_of(s, name, t, inputs) == at_of(
        s,
        name,
        g[k],
        inputs,
    ) by {
        assert(from <= g[k] && g[k + 1] <= end);
        lemma_lens_constant(env, name, from, end, g[k], g[k + 1], t, fuel);
    }
    if s.types.contains_key(name) {
        let stack = stack_of(s.db.stacks, name);
        assert forall|t: i64| from < t < end implies (g.contains(t) <==> #[trigger] turns(
            stack,
            t,
        )) by {
            assert(turns(stack, t) == is_end(stack, t));
            assert(among(g, t) <==> t == from || t == end || bounds.contains(t));
            assert(ends(env, name, from, end).contains(t) == is_end(stack, t));
            assert(!cutoffs(env, name, from, end).contains(t));
            if g.contains(t) {
                let k = choose|k: int| 0 <= k < g.len() && g[k] == t;
                assert(among(g, t));
            }
            if among(g, t) {
                let k = choose|k: int| 0 <= k < g.len() && #[trigger] g[k] == t;
                assert(g.contains(t));
            }
        }
    }
}

/// An aggregate over a window that does not begin before the time to live.
proof fn lemma_agg_samples(
    s: StateV,
    name: Seq<char>,
    from: i64,
    end: i64,
    func: AggFunc,
    inputs: &Inputs,
) -> (p: (Seq<i64>, Seq<Segment<Value>>))
    requires
        env_wf(s.env(inputs)),
        steady_lens(s.env(inputs), name, s.fuel()),
        !s.axes.contains_key(name),
        s.types.contains_key(name) || agg_over(s.env(inputs), name, func, from, end, s.fuel())
            is Ok,
        s.cutoff(name, inputs) matches Some(c) ==> c <= from,
        from < end,
    ensures
        cuts(s, name, inputs, p.0, from as int, end),
        are_samples(s, name, inputs, p.0, p.1),
        reduces_to(
            func,
            p.1,
            &inputs.floats,
            agg_over(s.env(inputs), name, func, from, end, s.fuel()),
        ),
{
    let env = s.env(inputs);
    let fuel = s.fuel();
    lemma_grid_cuts(s, name, from, end, inputs);
    let g = grid(lens_bounds(env, name, from, end, fuel)->Ok_0, from, end);
    let k = (g.len() - 1) as nat;
    if s.types.contains_key(name) {
        lemma_samples_ok(env, name, g, k, fuel);
    }
    let segs = samples(env, name, g, k, fuel)->Ok_0;
    lemma_samples(env, name, g, k, fuel);
    lemma_are_samples(s, name, inputs, g, segs, from);
    law_aggregate_of_stretches(func, segs, &inputs.floats);
    (g, segs)
}

proof fn lemma_are_samples(
    s: StateV,
    name: Seq<char>,
    inputs: &Inputs,
    g: Seq<i64>,
    segs: Seq<Segment<Value>>,
    from: i64,
)
    requires
        !s.axes.contains_key(name),
        s.cutoff(name, inputs) matches Some(c) ==> c <= from,
        strictly_ascending(g),
        g.len() > 0,
        g[0] == from,
        samples(s.env(inputs), name, g, (g.len() - 1) as nat, s.fuel()) == Ok::<
            Seq<Segment<Value>>,
            ExecErrorV,
        >(segs),
    ensures
        are_samples(s, name, inputs, g, segs),
        forall|i: int| 0 <= i < segs.len() ==> (#[trigger] segs[i]).0 < segs[i].1,
{
    let env = s.env(inputs);
    let fuel = s.fuel();
    let k = (g.len() - 1) as nat;
    lemma_samples(env, name, g, k, fuel);
    assert forall|m: int| 0 <= m < g.len() implies at_of(s, name, #[trigger] g[m], inputs)
        == lens_at(env, name, g[m], fuel) by {
        if m > 0 {
            assert(g[0] < g[m]);
        }
    }
    assert forall|i: int| 0 <= i < segs.len() implies has_sample(
        s,
        name,
        inputs,
        g,
        #[trigger] segs[i],
    ) && segs[i].0 < segs[i].1 by {
        assert(some_taken(env, name, g, k, fuel, segs[i]));
        let m = choose|m: int| #[trigger] is_taken(env, name, g, k, fuel, segs[i], m);
        assert(at_of(s, name, g[m], inputs) == lens_at(env, name, g[m], fuel));
        assert(is_sample(s, name, inputs, g, segs[i], m));
        assert(g[m] < g[m + 1]);
    }
    assert forall|m: int| 0 <= m < g.len() - 1 implies is_accounted(
        s,
        name,
        inputs,
        segs,
        #[trigger] g[m],
    ) by {
        assert(0 <= m < k);
        assert(at_of(s, name, g[m], inputs) == lens_at(env, name, g[m], fuel));
        assert(begins_one(segs, g[m]) || lens_at(env, name, g[m], fuel) == Ok::<
            Option<Value>,
            ExecErrorV,
        >(None));
    }
}

/// `REDUCE LENS` cuts the window where the lens may change, takes what `AT LENS` gives at the
/// start of each stretch, and yields the aggregate of the stretches that have a value: on a
/// base lens always, and on a derived lens that reads no aggregate where nothing fails. A
/// window before the time to live yields nothing.
pub proof fn law_reduce_of_samples(
    databases: Databases,
    active: Option<Seq<char>>,
    name: String,
    start: i64,
    end: i64,
    func: AggFunc,
    inputs: &Inputs,
    r: Result<Output, ExecError>,
)
    requires
        active is Some,
        databases.contains_key(active->0),
        env_wf(databases[active->0].env(inputs)),
        steady_lens(databases[active->0].env(inputs), name@, databases[active->0].fuel()),
        !databases[active->0].axes.contains_key(name@),
        databases[active->0].types.contains_key(name@) || r is Ok,
        answers(databases, active, &Stmt::Reduce { name, start, end, func }, inputs, r),
        start < end,
    ensures
        r matches Ok(o) ==> o is Value,
        ({
            let s = databases[active->0];
            let from = begins(s.ttl, name@, start, inputs.now_ms);
            if from >= end {
                said(r) == Ok::<Option<Value>, ExecErrorV>(None)
            } else {
                exists|g: Seq<i64>, segs: Seq<Segment<Value>>|
                    {
                        &&& #[trigger] cuts(s, name@, inputs, g, from, end)
                        &&& #[trigger] are_samples(s, name@, inputs, g, segs)
                        &&& reduces_to(func, segs, &inputs.floats, said(r))
                    }
            }
        }),
{
    let s = databases[active->0];
    let from = s.window_start(name@, start, inputs);
    let first = begins(s.ttl, name@, start, inputs.now_ms);
    assert(from >= end <==> first >= end);
    if from < end {
        assert(from == first);
        assert(said(r) == agg_over(s.env(inputs), name@, func, from, end, s.fuel()));
        let p = lemma_agg_samples(s, name@, from, end, func, inputs);
        assert(cuts(s, name@, inputs, p.0, first, end));
    }
}

/// An aggregate in an expression is what `REDUCE LENS` yields of the lens over the window that
/// lies so far from the time. This is said of lenses without a time to live, and of windows
/// whose ends a word holds.
pub proof fn law_aggregate_in_expression_is_reduced(
    s: StateV,
    func: AggFunc,
    lens: String,
    rel_start: i64,
    rel_end: i64,
    t: i64,
    inputs: &Inputs,
)
    requires
        s.has_lens(lens@),
        !s.axes.contains_key(lens@),
        !s.ttl.contains_key(lens@),
        i64::MIN <= t + rel_start <= i64::MAX,
        i64::MIN <= t + rel_end <= i64::MAX,
    ensures
        ({
            let r = expr_at(
                s.env(inputs),
                &Expr::Agg { func, lens, rel_start, rel_end },
                t,
                s.fuel(),
            );
            if rel_start < rel_end {
                r == reduce_of(
                    s,
                    lens@,
                    (t + rel_start) as i64,
                    (t + rel_end) as i64,
                    func,
                    inputs,
                )
            } else {
                r == Ok::<Option<Value>, ExecErrorV>(None)
            }
        }),
{
}

} // verus!
