//! Layer stacks: newest-wins lookup, range scans, and lossless compaction.

use crate::exact::Exact;
use crate::model::{
    all_wf, first_hit, in_line, lemma_bounds_hold, lemma_line_hit, lemma_no_hit,
    lemma_value_at_none, lemma_value_at_only, Bound, Datum, Layer, LayerId, Tau, Timestamp,
};
use crate::order::{ascending, linked, rearranged, sort_in_place, Rank};
use vstd::prelude::*;
use vstd::slice::slice_subrange;

verus! {

/// A stretch of valid time over which a value holds: start, end (exclusive), value.
pub type Segment<V> = (Timestamp, Timestamp, V);

impl Rank for i64 {
    open spec fn at_most(&self, other: &Self) -> bool {
        *self <= *other
    }

    fn le(&self, other: &Self) -> (b: bool) {
        *self <= *other
    }

    proof fn total(a: Self, b: Self) {
    }

    proof fn transitive(a: Self, b: Self, c: Self) {
    }
}

/// The layer had been written by transaction time `as_of`, where one is given.
pub open spec fn visible<V>(layer: Layer<V>, as_of: Option<i64>) -> bool {
    as_of matches Some(limit) ==> layer.written_at <= limit
}

/// What a stack, oldest layer first, says of the point `ts`: the newest visible
/// layer that covers the point decides.
pub open spec fn newest<V>(
    layers: Seq<Layer<V>>,
    ts: Seq<Timestamp>,
    as_of: Option<i64>,
) -> Option<V>
    decreases layers.len(),
{
    if layers.len() == 0 {
        None
    } else if visible(layers.last(), as_of) && layers.last().hit(ts) is Some {
        layers.last().hit(ts)
    } else {
        newest(layers.drop_last(), ts, as_of)
    }
}

pub open spec fn stack_wf<V>(layers: Seq<Layer<V>>) -> bool {
    forall|i: int| 0 <= i < layers.len() ==> (#[trigger] layers[i]).wf()
}

/// Two lookups give the same answer: the same value, or values that count as equal.
pub open spec fn agree<V: Datum>(a: Option<V>, b: Option<V>) -> bool {
    match (a, b) {
        (None, None) => true,
        (Some(x), Some(y)) => x == y || x.alike(&y),
        _ => false,
    }
}

/// The newest-wins value of a point.
pub fn layers_get<V: Datum>(
    layers: &[Layer<V>],
    coords: &[Timestamp],
    as_of: Option<i64>,
) -> (r: Option<V>)
    requires
        stack_wf(layers@),
    ensures
        r == newest(layers@, coords@, as_of),
{
    let mut i: usize = layers.len();
    assert(layers@.take(i as int) =~= layers@);
    while i > 0
        invariant
            i <= layers@.len(),
            stack_wf(layers@),
            newest(layers@, coords@, as_of) == newest(layers@.take(i as int), coords@, as_of),
        decreases i,
    {
        proof {
            let front = layers@.take(i as int);
            assert(front.last() == layers@[i - 1]);
            assert(front.drop_last() =~= layers@.take(i - 1));
        }
        let layer = &layers[i - 1];
        let seen: bool = match as_of {
            Some(limit) => layer.written_at <= limit,
            None => true,
        };
        if seen {
            match layer.at_nd(coords) {
                Some(v) => {
                    return Some(v.dup());
                },
                None => {},
            }
        }
        i = i - 1;
    }
    None
}

/// A lookup in a stack split in two asks the newer part first.
pub proof fn lemma_newest_split<V>(
    a: Seq<Layer<V>>,
    b: Seq<Layer<V>>,
    ts: Seq<Timestamp>,
    as_of: Option<i64>,
)
    ensures
        newest(a + b, ts, as_of) == (if newest(b, ts, as_of) is Some {
            newest(b, ts, as_of)
        } else {
            newest(a, ts, as_of)
        }),
    decreases b.len(),
{
    if b.len() == 0 {
        assert(a + b =~= a);
    } else {
        assert((a + b).last() == b.last());
        assert((a + b).drop_last() =~= a + b.drop_last());
        lemma_newest_split(a, b.drop_last(), ts, as_of);
    }
}

/// Appending a layer: it decides wherever it covers the point, and what it does not
/// cover keeps its value.
pub proof fn law_newest_layer_wins<V>(
    layers: Seq<Layer<V>>,
    layer: Layer<V>,
    ts: Seq<Timestamp>,
)
    ensures
        layer.hit(ts) is Some ==> newest(layers.push(layer), ts, None) == layer.hit(ts),
        layer.hit(ts) is None ==> newest(layers.push(layer), ts, None) == newest(layers, ts, None),
{
    assert(layers.push(layer).drop_last() =~= layers);
}

/// A layer written after `as_of` does not change what was known then: old values are
/// never overwritten.
pub proof fn law_append_keeps_history<V>(
    layers: Seq<Layer<V>>,
    layer: Layer<V>,
    ts: Seq<Timestamp>,
    as_of: i64,
)
    requires
        layer.written_at > as_of,
    ensures
        newest(layers.push(layer), ts, Some(as_of)) == newest(layers, ts, Some(as_of)),
{
    assert(layers.push(layer).drop_last() =~= layers);
}

/// As of a time by which every layer had been written, a lookup sees what it sees
/// without a limit.
pub proof fn law_as_of_late_is_now<V>(layers: Seq<Layer<V>>, ts: Seq<Timestamp>, as_of: i64)
    requires
        forall|i: int| 0 <= i < layers.len() ==> (#[trigger] layers[i]).written_at <= as_of,
    ensures
        newest(layers, ts, Some(as_of)) == newest(layers, ts, None),
    decreases layers.len(),
{
    if layers.len() > 0 {
        let front = layers.drop_last();
        assert forall|i: int| 0 <= i < front.len() implies (#[trigger] front[i]).written_at
            <= as_of by {
            assert(layers[i].written_at <= as_of);
        }
        law_as_of_late_is_now(front, ts, as_of);
        assert(layers[layers.len() - 1].written_at <= as_of);
    }
}

/// The newest-wins value at a valid time.
pub fn at_layers<V: Datum>(layers: &[Layer<V>], t: Timestamp) -> (r: Option<V>)
    requires
        stack_wf(layers@),
    ensures
        r == newest(layers@, seq![t], None),
{
    let point: Vec<Timestamp> = vec![t];
    assert(point@ =~= seq![t]);
    layers_get(layers, &point, None)
}

/// The value of a moving point: valid time `t`, the other axes held at `fixed`.
pub open spec fn probe<V>(
    layers: Seq<Layer<V>>,
    fixed: Seq<Timestamp>,
    as_of: Option<i64>,
) -> spec_fn(Timestamp) -> Option<V> {
    |t: Timestamp| newest(layers, seq![t] + fixed, as_of)
}

/// `segs` is the trace of `f` over `[start, end)`: the stretches, in order and as long
/// as possible, over which `f` has one value. Where `f` runs through values that count
/// as equal, the stretch carries the first of them.
pub open spec fn traces<V: Datum>(
    segs: Seq<Segment<V>>,
    f: spec_fn(Timestamp) -> Option<V>,
    start: int,
    end: int,
) -> bool {
    &&& forall|i: int|
        0 <= i < segs.len() ==> start <= (#[trigger] segs[i]).0 < segs[i].1 <= end && f(segs[i].0)
            == Some(segs[i].2)
    &&& forall|i: int, j: int|
        #![trigger segs[i], segs[j]]
        0 <= i < j < segs.len() ==> segs[i].1 <= segs[j].0
    &&& forall|i: int, t: Timestamp|
        #![trigger segs[i], f(t)]
        0 <= i < segs.len() && segs[i].0 <= t < segs[i].1 ==> agree(Some(segs[i].2), f(t))
    &&& forall|t: Timestamp|
        start <= t < end && #[trigger] f(t) is Some ==> exists|i: int|
            0 <= i < segs.len() && (#[trigger] segs[i]).0 <= t < segs[i].1
    &&& forall|i: int, j: int|
        #![trigger segs[i], segs[j]]
        0 <= i && j == i + 1 && j < segs.len() && segs[i].1 == segs[j].0 ==> !segs[i].2.alike(
            &segs[j].2,
        )
}

/// Two traces that share their first `k` stretches share the next one.
proof fn lemma_traces_share_next<V: Datum>(
    a: Seq<Segment<V>>,
    b: Seq<Segment<V>>,
    f: spec_fn(Timestamp) -> Option<V>,
    start: int,
    end: int,
    k: int,
)
    requires
        traces(a, f, start, end),
        traces(b, f, start, end),
        forall|t: Timestamp| start <= t < end && #[trigger] f(t) is Some ==> f(t)->0.alike(&f(t)->0),
        0 <= k < a.len(),
        forall|i: int| 0 <= i < k ==> i < b.len() && #[trigger] a[i] == b[i],
    ensures
        k < b.len(),
        b[k].0 <= a[k].0,
        a[k].0 == b[k].0 ==> a[k].2 == b[k].2 && a[k].1 >= b[k].1,
{
    let t = a[k].0;
    assert(f(t) is Some);
    let m = choose|m: int| 0 <= m < b.len() && (#[trigger] b[m]).0 <= t < b[m].1;
    if m < k {
        assert(a[m] == b[m]);
    }
    assert(b[k].0 <= b[m].0) by {
        if k < m {
            assert(b[k].1 <= b[m].0);
        }
    }
    if a[k].0 == b[k].0 && a[k].1 < b[k].1 {
        let u = a[k].1;
        assert(agree(Some(b[k].2), f(u)));
        let n = choose|n: int| 0 <= n < a.len() && (#[trigger] a[n]).0 <= u < a[n].1;
        if n < k {
            assert(a[n].1 <= a[k].0);
        }
        assert(n > k);
        let next = k + 1;
        assert(a[k].1 <= a[next].0);
        if next < n {
            assert(a[next].1 <= a[n].0);
        }
        assert(a[next].0 == u);
        assert(f(u) == Some(a[next].2));
        assert(!a[k].2.alike(&a[next].2));
    }
}

proof fn lemma_traces_share_first<V: Datum>(
    a: Seq<Segment<V>>,
    b: Seq<Segment<V>>,
    f: spec_fn(Timestamp) -> Option<V>,
    start: int,
    end: int,
    k: int,
)
    requires
        traces(a, f, start, end),
        traces(b, f, start, end),
        forall|t: Timestamp| start <= t < end && #[trigger] f(t) is Some ==> f(t)->0.alike(&f(t)->0),
        0 <= k <= a.len(),
    ensures
        k <= b.len(),
        forall|i: int| 0 <= i < k ==> #[trigger] a[i] == b[i],
    decreases k,
{
    if k > 0 {
        lemma_traces_share_first(a, b, f, start, end, k - 1);
        lemma_traces_share_next(a, b, f, start, end, k - 1);
        lemma_traces_share_next(b, a, f, start, end, k - 1);
    }
}

/// Over a window a function has one trace, where each of its values is alike to itself.
pub proof fn law_one_function_one_trace<V: Datum>(
    a: Seq<Segment<V>>,
    b: Seq<Segment<V>>,
    f: spec_fn(Timestamp) -> Option<V>,
    start: int,
    end: int,
)
    requires
        traces(a, f, start, end),
        traces(b, f, start, end),
        forall|t: Timestamp| start <= t < end && #[trigger] f(t) is Some ==> f(t)->0.alike(&f(t)->0),
    ensures
        a == b,
{
    lemma_traces_share_first(a, b, f, start, end, a.len() as int);
    lemma_traces_share_first(b, a, f, start, end, b.len() as int);
    assert(a =~= b);
}

/// `t` is one of `bounds`.
pub open spec fn among(bounds: Seq<Timestamp>, t: Timestamp) -> bool {
    exists|k: int| 0 <= k < bounds.len() && #[trigger] bounds[k] == t
}

/// The valid-time ends of every tau that lie strictly between `start` and `end` are
/// among `bounds`.
pub open spec fn has_ends_of<V>(
    bounds: Seq<Timestamp>,
    layers: Seq<Layer<V>>,
    start: Timestamp,
    end: Timestamp,
) -> bool {
    forall|l: int, k: int|
        #![trigger layers[l].taus@[k]]
        0 <= l < layers.len() && 0 <= k < layers[l].taus@.len() ==> {
            &&& start < layers[l].taus@[k].coords@[0].lo < end ==> among(
                bounds,
                layers[l].taus@[k].coords@[0].lo,
            )
            &&& start < layers[l].taus@[k].coords@[0].hi < end ==> among(
                bounds,
                layers[l].taus@[k].coords@[0].hi,
            )
        }
}

/// `t` is an end of the valid time of some tau.
pub open spec fn is_end<V>(layers: Seq<Layer<V>>, t: Timestamp) -> bool {
    exists|l: int, k: int|
        #![trigger layers[l].taus@[k]]
        0 <= l < layers.len() && 0 <= k < layers[l].taus@.len() && (
        layers[l].taus@[k].coords@[0].lo == t || layers[l].taus@[k].coords@[0].hi == t)
}

pub open spec fn strictly_ascending(bounds: Seq<Timestamp>) -> bool {
    forall|i: int, j: int|
        #![trigger bounds[i], bounds[j]]
        0 <= i < j < bounds.len() ==> bounds[i] < bounds[j]
}

proof fn lemma_among_push(bounds: Seq<Timestamp>, x: Timestamp, t: Timestamp)
    ensures
        among(bounds, t) ==> among(bounds.push(x), t),
        among(bounds.push(x), x),
{
    if among(bounds, t) {
        let k = choose|k: int| 0 <= k < bounds.len() && #[trigger] bounds[k] == t;
        assert(bounds.push(x)[k] == t);
    }
    assert(bounds.push(x)[bounds.len() as int] == x);
}

/// Sorts the bounds and drops repetitions.
pub fn sort_bounds(bounds: Vec<Timestamp>) -> (r: Vec<Timestamp>)
    ensures
        strictly_ascending(r@),
        forall|t: Timestamp| #[trigger] among(r@, t) <==> among(bounds@, t),
{
    let mut sorted = bounds;
    sort_in_place(&mut sorted);
    let mut out: Vec<Timestamp> = Vec::new();
    let mut i: usize = 0;
    while i < sorted.len()
        invariant
            i <= sorted@.len(),
            rearranged(bounds@, sorted@),
            ascending(sorted@),
            strictly_ascending(out@),
            out@.len() > 0 ==> i > 0 && out@.last() == sorted@[i - 1],
            i > 0 ==> out@.len() > 0,
            forall|t: Timestamp| #[trigger] among(out@, t) <==> among(sorted@.take(i as int), t),
        decreases sorted@.len() - i,
    {
        let x: i64 = sorted[i];
        let ghost before = out@;
        let n: usize = out.len();
        let fresh: bool = n == 0 || out[n - 1] != x;
        if fresh {
            out.push(x);
        }
        proof {
            if i > 0 {
                assert(sorted@[i - 1].at_most(&sorted@[i as int]));
            }
            assert(sorted@.take(i + 1) =~= sorted@.take(i as int).push(x));
            assert forall|t: Timestamp| #[trigger] among(out@, t) <==> among(
                sorted@.take(i + 1),
                t,
            ) by {
                lemma_among_push(before, x, t);
                lemma_among_push(sorted@.take(i as int), x, t);
                if among(sorted@.take(i + 1), t) {
                    let k = choose|k: int|
                        0 <= k < sorted@.take(i + 1).len() && #[trigger] sorted@.take(i + 1)[k]
                            == t;
                    if k < i {
                        assert(sorted@.take(i as int)[k] == t);
                        assert(among(before, t));
                    } else {
                        assert(t == x);
                        if !fresh {
                            assert(out@[n - 1] == x);
                        }
                    }
                }
                if among(out@, t) {
                    let k = choose|k: int| 0 <= k < out@.len() && #[trigger] out@[k] == t;
                    if k < before.len() {
                        assert(before[k] == t);
                        assert(among(before, t));
                        assert(among(sorted@.take(i as int), t));
                    }
                }
            }
        }
        i = i + 1;
    }
    proof {
        assert(sorted@.take(sorted@.len() as int) =~= sorted@);
        let (from, to) = choose|from: Seq<int>, to: Seq<int>| linked(bounds@, sorted@, from, to);
        assert forall|t: Timestamp| among(sorted@, t) <==> #[trigger] among(bounds@, t) by {
            if among(sorted@, t) {
                let k = choose|k: int| 0 <= k < sorted@.len() && #[trigger] sorted@[k] == t;
                assert(0 <= from[k] < bounds@.len());
                assert(bounds@[from[k]] == t);
            }
            if among(bounds@, t) {
                let k = choose|k: int| 0 <= k < bounds@.len() && #[trigger] bounds@[k] == t;
                assert(0 <= to[k] < bounds@.len());
                assert(from[to[k]] == k);
                assert(sorted@[to[k]] == t);
            }
        }
    }
    out
}

/// Adds to `bounds` every tau end of `layers` that lies strictly between `start` and
/// `end`.
pub fn collect_bounds_from_layers<V>(
    layers: &[Layer<V>],
    start: Timestamp,
    end: Timestamp,
    bounds: &mut Vec<Timestamp>,
)
    requires
        stack_wf(layers@),
    ensures
        has_ends_of(final(bounds)@, layers@, start, end),
        final(bounds)@.len() >= old(bounds)@.len(),
        old(bounds)@ =~= final(bounds)@.take(old(bounds)@.len() as int),
        forall|k: int|
            old(bounds)@.len() <= k < final(bounds)@.len() ==> start < #[trigger] final(bounds)@[k]
                < end && is_end(layers@, final(bounds)@[k]),
        forall|t: Timestamp| #[trigger]
            among(final(bounds)@, t) <==> among(old(bounds)@, t) || (start < t < end && is_end(
                layers@,
                t,
            )),
{
    let ghost before = bounds@;
    let mut l: usize = 0;
    while l < layers.len()
        invariant
            l <= layers@.len(),
            stack_wf(layers@),
            bounds@.len() >= before.len(),
            before =~= bounds@.take(before.len() as int),
            forall|k: int|
                before.len() <= k < bounds@.len() ==> start < #[trigger] bounds@[k] < end && is_end(
                    layers@,
                    bounds@[k],
                ),
            has_ends_of(bounds@, layers@.take(l as int), start, end),
        decreases layers@.len() - l,
    {
        let layer = &layers[l];
        assert(layer.wf());
        let mut k: usize = 0;
        while k < layer.taus.len()
            invariant
                l < layers@.len(),
                *layer == layers@[l as int],
                layer.wf(),
                k <= layer.taus@.len(),
                bounds@.len() >= before.len(),
                before =~= bounds@.take(before.len() as int),
                forall|j: int|
                    before.len() <= j < bounds@.len() ==> start < #[trigger] bounds@[j] < end
                        && is_end(layers@, bounds@[j]),
                has_ends_of(bounds@, layers@.take(l as int), start, end),
                forall|j: int|
                    #![trigger layer.taus@[j]]
                    0 <= j < k ==> {
                        &&& start < layer.taus@[j].coords@[0].lo < end ==> among(
                            bounds@,
                            layer.taus@[j].coords@[0].lo,
                        )
                        &&& start < layer.taus@[j].coords@[0].hi < end ==> among(
                            bounds@,
                            layer.taus@[j].coords@[0].hi,
                        )
                    },
            decreases layer.taus@.len() - k,
        {
            assert(layer.taus@[k as int].wf());
            let lo: i64 = layer.taus[k].start();
            let hi: i64 = layer.taus[k].end();
            let ghost b0 = bounds@;
            if start < lo && lo < end {
                bounds.push(lo);
            }
            let ghost b1 = bounds@;
            if start < hi && hi < end {
                bounds.push(hi);
            }
            proof {
                assert(layers@[l as int].taus@[k as int] == layer.taus@[k as int]);
                assert(is_end(layers@, lo) && is_end(layers@, hi));
                assert forall|t: Timestamp| among(b0, t) implies #[trigger] among(bounds@, t) by {
                    lemma_among_push(b0, lo, t);
                    lemma_among_push(b1, hi, t);
                }
                lemma_among_push(b0, lo, lo);
                lemma_among_push(b1, hi, lo);
                lemma_among_push(b1, hi, hi);
            }
            k = k + 1;
        }
        proof {
            assert forall|i: int, j: int|
                #![trigger layers@.take(l + 1)[i].taus@[j]]
                0 <= i < l + 1 && 0 <= j < layers@.take(l + 1)[i].taus@.len() implies {
                &&& start < layers@.take(l + 1)[i].taus@[j].coords@[0].lo < end ==> among(
                    bounds@,
                    layers@.take(l + 1)[i].taus@[j].coords@[0].lo,
                )
                &&& start < layers@.take(l + 1)[i].taus@[j].coords@[0].hi < end ==> among(
                    bounds@,
                    layers@.take(l + 1)[i].taus@[j].coords@[0].hi,
                )
            } by {
                if i < l {
                    assert(layers@.take(l as int)[i].taus@[j] == layers@.take(l + 1)[i].taus@[j]);
                } else {
                    assert(layers@.take(l + 1)[i] == *layer);
                    assert(layer.taus@[j] == layers@.take(l + 1)[i].taus@[j]);
                }
            }
        }
        l = l + 1;
    }
    assert(layers@.take(l as int) =~= layers@);
    proof {
        assert forall|t: Timestamp| #[trigger] among(bounds@, t) <==> among(before, t) || (start < t
            < end && is_end(layers@, t)) by {
            if among(bounds@, t) {
                let k = choose|k: int| 0 <= k < bounds@.len() && #[trigger] bounds@[k] == t;
                if k < before.len() {
                    assert(before[k] == bounds@.take(before.len() as int)[k]);
                }
            }
            if among(before, t) {
                let k = choose|k: int| 0 <= k < before.len() && #[trigger] before[k] == t;
                assert(bounds@.take(before.len() as int)[k] == bounds@[k]);
                assert(bounds@[k] == t);
            }
            if start < t < end && is_end(layers@, t) {
                let (l, k) = choose|l: int, k: int|
                    #![trigger layers@[l].taus@[k]]
                    0 <= l < layers@.len() && 0 <= k < layers@[l].taus@.len() && (
                    layers@[l].taus@[k].coords@[0].lo == t || layers@[l].taus@[k].coords@[0].hi
                        == t);
                assert(among(bounds@, t));
            }
        }
    }
}

/// Between two neighbouring bounds nothing starts and nothing ends, so the moving
/// point sees one value.
pub proof fn lemma_probe_constant<V>(
    layers: Seq<Layer<V>>,
    fixed: Seq<Timestamp>,
    as_of: Option<i64>,
    w0: Timestamp,
    w1: Timestamp,
    t: Timestamp,
)
    requires
        stack_wf(layers),
        w0 <= t < w1,
        forall|l: int, k: int|
            #![trigger layers[l].taus@[k]]
            0 <= l < layers.len() && 0 <= k < layers[l].taus@.len() ==> {
                &&& !(w0 < layers[l].taus@[k].coords@[0].lo < w1)
                &&& !(w0 < layers[l].taus@[k].coords@[0].hi < w1)
            },
    ensures
        newest(layers, seq![t] + fixed, as_of) == newest(layers, seq![w0] + fixed, as_of),
    decreases layers.len(),
{
    if layers.len() > 0 {
        let last = layers.last();
        assert(layers[layers.len() - 1].wf());
        assert forall|k: int| 0 <= k < last.taus@.len() implies (#[trigger] last.taus@[k]).covers(
            seq![t] + fixed,
        ) == last.taus@[k].covers(seq![w0] + fixed) by {
            let tau = last.taus@[k];
            assert(tau.wf());
            assert(layers[layers.len() - 1].taus@[k] == tau);
            assert(tau.coords@[0].holds(t) == tau.coords@[0].holds(w0));
            let a = seq![t] + fixed;
            let b = seq![w0] + fixed;
            if tau.covers(a) {
                assert forall|i: int| 0 <= i < b.len() implies (#[trigger] tau.coords@[i]).holds(
                    b[i],
                ) by {
                    assert(tau.coords@[i].holds(a[i]));
                }
            }
            if tau.covers(b) {
                assert forall|i: int| 0 <= i < a.len() implies (#[trigger] tau.coords@[i]).holds(
                    a[i],
                ) by {
                    assert(tau.coords@[i].holds(b[i]));
                }
            }
        }
        lemma_same_cover_same_hit(last.taus@, seq![t] + fixed, seq![w0] + fixed);
        let front = layers.drop_last();
        assert forall|l: int| 0 <= l < front.len() implies (#[trigger] front[l]).wf() by {
            assert(layers[l].wf());
        }
        assert forall|l: int, k: int|
            #![trigger front[l].taus@[k]]
            0 <= l < front.len() && 0 <= k < front[l].taus@.len() implies {
            &&& !(w0 < front[l].taus@[k].coords@[0].lo < w1)
            &&& !(w0 < front[l].taus@[k].coords@[0].hi < w1)
        } by {
            assert(layers[l].taus@[k] == front[l].taus@[k]);
        }
        lemma_probe_constant(front, fixed, as_of, w0, w1, t);
    }
}

proof fn lemma_same_cover_same_hit<V>(taus: Seq<Tau<V>>, a: Seq<Timestamp>, b: Seq<Timestamp>)
    requires
        forall|k: int| 0 <= k < taus.len() ==> (#[trigger] taus[k]).covers(a) == taus[k].covers(b),
    ensures
        first_hit(taus, a) == first_hit(taus, b),
    decreases taus.len(),
{
    if taus.len() > 0 {
        assert(taus[0].covers(a) == taus[0].covers(b));
        let rest = taus.drop_first();
        assert forall|k: int| 0 <= k < rest.len() implies (#[trigger] rest[k]).covers(a)
            == rest[k].covers(b) by {
            assert(taus[k + 1].covers(a) == taus[k + 1].covers(b));
        }
        lemma_same_cover_same_hit(rest, a, b);
    }
}

/// A trace that ends at `w0` goes on with the stretch `[w0, w1)`.
proof fn lemma_trace_push<V: Datum>(
    segs: Seq<Segment<V>>,
    f: spec_fn(Timestamp) -> Option<V>,
    start: int,
    w0: Timestamp,
    w1: Timestamp,
    v: V,
)
    requires
        start <= w0 < w1,
        traces(segs, f, start, w0 as int),
        forall|t: Timestamp| w0 <= t < w1 ==> #[trigger] f(t) == Some(v),
        segs.len() > 0 && segs.last().1 == w0 ==> !segs.last().2.alike(&v),
    ensures
        traces(segs.push((w0, w1, v)), f, start, w1 as int),
{
    let n = segs.len() as int;
    let out = segs.push((w0, w1, v));
    assert(forall|i: int| 0 <= i < n ==> #[trigger] out[i] == segs[i]);
    assert(out[n] == (w0, w1, v));
    assert(f(w0) == Some(v));
    assert forall|t: Timestamp| start <= t < w1 && #[trigger] f(t) is Some implies exists|i: int|
        0 <= i < out.len() && (#[trigger] out[i]).0 <= t < out[i].1 by {
        if t < w0 {
            let i = choose|i: int| 0 <= i < segs.len() && (#[trigger] segs[i]).0 <= t < segs[i].1;
            assert(out[i].0 <= t < out[i].1);
        } else {
            assert(out[n].0 <= t < out[n].1);
        }
    }
    assert forall|i: int, t: Timestamp|
        #![trigger out[i], f(t)]
        0 <= i < out.len() && out[i].0 <= t < out[i].1 implies agree(Some(out[i].2), f(t)) by {
        if i < n {
            assert(segs[i].0 <= t < segs[i].1);
        }
    }
}

/// A trace that ends at `w0` in a stretch alike to `v` has that stretch go on to `w1`.
proof fn lemma_trace_join<V: Datum>(
    segs: Seq<Segment<V>>,
    f: spec_fn(Timestamp) -> Option<V>,
    start: int,
    w0: Timestamp,
    w1: Timestamp,
    v: V,
)
    requires
        start <= w0 < w1,
        traces(segs, f, start, w0 as int),
        forall|t: Timestamp| w0 <= t < w1 ==> #[trigger] f(t) == Some(v),
        segs.len() > 0,
        segs.last().1 == w0,
        segs.last().2.alike(&v),
    ensures
        traces(
            segs.drop_last().push((segs.last().0, w1, segs.last().2)),
            f,
            start,
            w1 as int,
        ),
{
    let n = segs.len() as int;
    let out = segs.drop_last().push((segs.last().0, w1, segs.last().2));
    assert(forall|i: int| 0 <= i < n - 1 ==> #[trigger] out[i] == segs[i]);
    assert(out[n - 1] == (segs[n - 1].0, w1, segs[n - 1].2));
    assert forall|t: Timestamp| start <= t < w1 && #[trigger] f(t) is Some implies exists|i: int|
        0 <= i < out.len() && (#[trigger] out[i]).0 <= t < out[i].1 by {
        if t < w0 {
            let i = choose|i: int| 0 <= i < segs.len() && (#[trigger] segs[i]).0 <= t < segs[i].1;
            assert(out[i].0 <= t < out[i].1);
        } else {
            assert(out[n - 1].0 <= t < out[n - 1].1);
        }
    }
    assert forall|i: int, t: Timestamp|
        #![trigger out[i], f(t)]
        0 <= i < out.len() && out[i].0 <= t < out[i].1 implies agree(Some(out[i].2), f(t)) by {
        if t < w0 {
            assert(segs[i].0 <= t < segs[i].1);
        } else if i < n - 1 {
            assert(segs[i].1 <= w0);
        }
    }
    assert forall|i: int| 0 <= i < out.len() implies start <= (#[trigger] out[i]).0 < out[i].1 <= w1
        && f(out[i].0) == Some(out[i].2) by {
        assert(start <= segs[i].0 < segs[i].1 <= w0);
        assert(f(segs[i].0) == Some(segs[i].2));
    }
    assert forall|i: int, j: int| #![trigger out[i], out[j]] 0 <= i < j < out.len() implies out[i].1
        <= out[j].0 by {
        assert(segs[i].1 <= segs[j].0);
    }
    assert forall|i: int, j: int|
        #![trigger out[i], out[j]]
        0 <= i && j == i + 1 && j < out.len() && out[i].1 == out[j].0 implies !out[i].2.alike(
        &out[j].2,
    ) by {
        assert(segs[i].1 == segs[j].0);
    }
}

/// Appends the stretch `[w0, w1)` with value `v` to a trace, joining it to the last
/// stretch where the two touch and their values count as equal.
pub(crate) fn push_segment<V: Datum>(
    segs: &mut Vec<Segment<V>>,
    w0: Timestamp,
    w1: Timestamp,
    v: V,
    f: Ghost<spec_fn(Timestamp) -> Option<V>>,
    start: Ghost<int>,
)
    requires
        start@ <= w0 < w1,
        traces(old(segs)@, f@, start@, w0 as int),
        forall|t: Timestamp| w0 <= t < w1 ==> #[trigger] f@(t) == Some(v),
    ensures
        traces(final(segs)@, f@, start@, w1 as int),
{
    let ghost before = segs@;
    let n: usize = segs.len();
    let join: bool = if n > 0 {
        segs[n - 1].1 == w0 && segs[n - 1].2.is_alike(&v)
    } else {
        false
    };
    if join {
        proof {
            lemma_trace_join(before, f@, start@, w0, w1, v);
        }
        if let Some(last) = segs.pop() {
            segs.push((last.0, w1, last.2));
            assert(segs@ =~= before.drop_last().push((before.last().0, w1, before.last().2)));
        }
    } else {
        proof {
            lemma_trace_push(before, f@, start@, w0, w1, v);
        }
        segs.push((w0, w1, v));
    }
}

/// A stretch over which `f` has no value leaves the trace as it is.
pub proof fn lemma_trace_gap<V: Datum>(
    segs: Seq<Segment<V>>,
    f: spec_fn(Timestamp) -> Option<V>,
    start: int,
    w0: int,
    w1: int,
)
    requires
        traces(segs, f, start, w0),
        w0 <= w1,
        forall|t: Timestamp| w0 <= t < w1 ==> #[trigger] f(t) is None,
    ensures
        traces(segs, f, start, w1),
{
    assert forall|t: Timestamp| start <= t < w1 && #[trigger] f(t) is Some implies exists|i: int|
        0 <= i < segs.len() && (#[trigger] segs[i]).0 <= t < segs[i].1 by {
        assert(t < w0);
    }
}

/// The newest-wins values over the window `[start, end)` of valid time, the other axes
/// held at `fixed`.
pub fn scan_layers<V: Datum>(
    layers: &[Layer<V>],
    start: Timestamp,
    end: Timestamp,
    fixed: &[Timestamp],
    as_of: Option<i64>,
) -> (r: Vec<Segment<V>>)
    requires
        stack_wf(layers@),
    ensures
        start >= end ==> r@.len() == 0,
        start < end ==> traces(r@, probe(layers@, fixed@, as_of), start as int, end as int),
{
    let mut segs: Vec<Segment<V>> = Vec::new();
    if start >= end {
        return segs;
    }
    let mut raw: Vec<Timestamp> = vec![start, end];
    let ghost window = raw@;
    collect_bounds_from_layers(layers, start, end, &mut raw);
    let bounds = sort_bounds(raw);
    proof {
        assert(raw@[0] == window[0] && raw@[1] == window[1]) by {
            assert(raw@.take(2)[0] == raw@[0]);
            assert(raw@.take(2)[1] == raw@[1]);
        }
        lemma_bounds_frame(raw@, bounds@, start, end);
    }
    let mut point: Vec<Timestamp> = vec![start];
    let mut j: usize = 0;
    while j < fixed.len()
        invariant
            j <= fixed@.len(),
            point@ =~= seq![start] + fixed@.take(j as int),
        decreases fixed@.len() - j,
    {
        point.push(fixed[j]);
        j = j + 1;
    }
    assert(point@ =~= seq![start] + fixed@);
    let ghost f = probe(layers@, fixed@, as_of);
    let mut i: usize = 0;
    while i < bounds.len() - 1
        invariant
            stack_wf(layers@),
            start < end,
            f == probe(layers@, fixed@, as_of),
            strictly_ascending(bounds@),
            bounds@.len() >= 2,
            bounds@[0] == start,
            bounds@.last() == end,
            i < bounds@.len(),
            forall|t: Timestamp| #[trigger] among(bounds@, t) <==> among(raw@, t),
            has_ends_of(raw@, layers@, start, end),
            point@.len() == fixed@.len() + 1,
            forall|k: int| 1 <= k < point@.len() ==> #[trigger] point@[k] == fixed@[k - 1],
            traces(segs@, f, start as int, bounds@[i as int] as int),
        decreases bounds@.len() - i,
    {
        let w0: i64 = bounds[i];
        let w1: i64 = bounds[i + 1];
        point.set(0, w0);
        assert(point@ =~= seq![w0] + fixed@);
        proof {
            assert(bounds@[i as int] < bounds@[i + 1]);
            lemma_window_clear(raw@, bounds@, layers@, start, end, i as int);
            assert forall|t: Timestamp| w0 <= t < w1 implies #[trigger] f(t) == newest(
                layers@,
                seq![w0] + fixed@,
                as_of,
            ) by {
                lemma_probe_constant(layers@, fixed@, as_of, w0, w1, t);
            }
        }
        match layers_get(layers, &point, as_of) {
            Some(v) => {
                push_segment(&mut segs, w0, w1, v, Ghost(f), Ghost(start as int));
            },
            None => {
                proof {
                    lemma_trace_gap(segs@, f, start as int, w0 as int, w1 as int);
                }
            },
        }
        i = i + 1;
    }
    segs
}

proof fn lemma_bounds_frame(
    raw: Seq<Timestamp>,
    bounds: Seq<Timestamp>,
    start: Timestamp,
    end: Timestamp,
)
    requires
        start < end,
        raw.len() >= 2,
        raw[0] == start,
        raw[1] == end,
        forall|k: int| 2 <= k < raw.len() ==> start < #[trigger] raw[k] < end,
        strictly_ascending(bounds),
        forall|t: Timestamp| #[trigger] among(bounds, t) <==> among(raw, t),
    ensures
        bounds.len() >= 2,
        bounds[0] == start,
        bounds.last() == end,
{
    assert(raw[0] == start);
    assert(raw[1] == end);
    assert(among(raw, start) && among(raw, end));
    assert(among(bounds, start) && among(bounds, end));
    let a = choose|k: int| 0 <= k < bounds.len() && #[trigger] bounds[k] == start;
    let b = choose|k: int| 0 <= k < bounds.len() && #[trigger] bounds[k] == end;
    assert(among(bounds, bounds[0]));
    assert(among(bounds, bounds[bounds.len() - 1]));
    let p = choose|k: int| 0 <= k < raw.len() && #[trigger] raw[k] == bounds[0];
    let q = choose|k: int| 0 <= k < raw.len() && #[trigger] raw[k] == bounds[bounds.len() - 1];
    assert(start <= raw[p] <= end);
    assert(start <= raw[q] <= end);
    if a > 0 {
        assert(bounds[0] < bounds[a]);
    }
    if b < bounds.len() - 1 {
        assert(bounds[b] < bounds[bounds.len() - 1]);
    }
}

proof fn lemma_window_clear<V>(
    raw: Seq<Timestamp>,
    bounds: Seq<Timestamp>,
    layers: Seq<Layer<V>>,
    start: Timestamp,
    end: Timestamp,
    i: int,
)
    requires
        strictly_ascending(bounds),
        bounds.len() >= 2,
        bounds[0] == start,
        bounds.last() == end,
        0 <= i < bounds.len() - 1,
        forall|t: Timestamp| #[trigger] among(bounds, t) <==> among(raw, t),
        has_ends_of(raw, layers, start, end),
    ensures
        start <= bounds[i] < bounds[i + 1] <= end,
        forall|l: int, k: int|
            #![trigger layers[l].taus@[k]]
            0 <= l < layers.len() && 0 <= k < layers[l].taus@.len() ==> {
                &&& !(bounds[i] < layers[l].taus@[k].coords@[0].lo < bounds[i + 1])
                &&& !(bounds[i] < layers[l].taus@[k].coords@[0].hi < bounds[i + 1])
            },
{
    assert(bounds[i] < bounds[i + 1]);
    if i > 0 {
        assert(bounds[0] < bounds[i]);
    }
    if i + 1 < bounds.len() - 1 {
        assert(bounds[i + 1] < bounds[bounds.len() - 1]);
    }
    assert forall|x: Timestamp| bounds[i] < x < bounds[i + 1] implies !#[trigger] among(raw, x) by {
        if among(raw, x) {
            assert(among(bounds, x));
            let k = choose|k: int| 0 <= k < bounds.len() && #[trigger] bounds[k] == x;
            if k < i {
                assert(bounds[k] < bounds[i]);
            }
            if k > i + 1 {
                assert(bounds[i + 1] < bounds[k]);
            }
        }
    }
    assert forall|l: int, k: int|
        #![trigger layers[l].taus@[k]]
        0 <= l < layers.len() && 0 <= k < layers[l].taus@.len() implies {
        &&& !(bounds[i] < layers[l].taus@[k].coords@[0].lo < bounds[i + 1])
        &&& !(bounds[i] < layers[l].taus@[k].coords@[0].hi < bounds[i + 1])
    } by {
        let tau = layers[l].taus@[k];
        if bounds[i] < tau.coords@[0].lo < bounds[i + 1] {
            assert(among(raw, tau.coords@[0].lo));
        }
        if bounds[i] < tau.coords@[0].hi < bounds[i + 1] {
            assert(among(raw, tau.coords@[0].hi));
        }
    }
}

/// The taus of a one-axis layer, as segments.
pub open spec fn segments_of<V>(taus: Seq<Tau<V>>) -> Seq<Segment<V>> {
    Seq::new(taus.len(), |i: int| (taus[i].coords@[0].lo, taus[i].coords@[0].hi, taus[i].value))
}

/// One past the last timestamp.
pub open spec fn end_of_time() -> int {
    i64::MAX + 1
}

/// All layers have one axis.
pub open spec fn stack_one_axis<V>(layers: Seq<Layer<V>>) -> bool {
    forall|i: int| 0 <= i < layers.len() ==> (#[trigger] layers[i]).one_axis()
}

/// No layer holds a tau.
pub open spec fn stack_empty<V>(layers: Seq<Layer<V>>) -> bool {
    forall|i: int| 0 <= i < layers.len() ==> (#[trigger] layers[i]).taus@.len() == 0
}

/// `layer` is the canonical form of the one-axis stack `group`: it bears the newest
/// layer's id and write time, and its taus trace the stack's newest-wins values over
/// all time.
pub open spec fn merged<V: Datum>(group: Seq<Layer<V>>, layer: Layer<V>) -> bool {
    &&& layer.wf()
    &&& layer.flat()
    &&& layer.one_axis()
    &&& layer.taus@.len() > 0
    &&& layer.id == group.last().id
    &&& layer.written_at == group.last().written_at
    &&& traces(
        segments_of(layer.taus@),
        probe(group, Seq::empty(), None),
        i64::MIN as int,
        end_of_time(),
    )
}

/// Where the newest generation of a stack, the layers that share the last one's write
/// time, begins.
pub open spec fn generation_start<V>(layers: Seq<Layer<V>>) -> int
    decreases layers.len(),
{
    if layers.len() <= 1 {
        0
    } else if layers[layers.len() - 2].written_at == layers.last().written_at {
        generation_start(layers.drop_last())
    } else {
        layers.len() - 1
    }
}

pub proof fn lemma_generation_start_range<V>(layers: Seq<Layer<V>>)
    requires
        layers.len() > 0,
    ensures
        0 <= generation_start(layers) < layers.len(),
        forall|k: int|
            generation_start(layers) <= k < layers.len() ==> (#[trigger] layers[k]).written_at
                == layers.last().written_at,
    decreases layers.len(),
{
    if layers.len() > 1 && layers[layers.len() - 2].written_at == layers.last().written_at {
        let front = layers.drop_last();
        lemma_generation_start_range(front);
        assert forall|k: int|
            generation_start(layers) <= k < layers.len() implies (#[trigger] layers[k]).written_at
            == layers.last().written_at by {
            if k < layers.len() - 1 {
                assert(front[k].written_at == front.last().written_at);
            }
        }
    }
}

proof fn lemma_generation_start_at<V>(layers: Seq<Layer<V>>, i: int)
    requires
        0 <= i < layers.len(),
        forall|k: int| i <= k < layers.len() ==> (#[trigger] layers[k]).written_at == layers[i].written_at,
        i > 0 ==> layers[i - 1].written_at != layers[i].written_at,
    ensures
        generation_start(layers) == i,
    decreases layers.len(),
{
    let n = layers.len() as int;
    assert(layers[n - 1].written_at == layers[i].written_at);
    if i < n - 1 {
        assert(layers[n - 2].written_at == layers[i].written_at);
        let front = layers.drop_last();
        assert forall|k: int| i <= k < front.len() implies (#[trigger] front[k]).written_at
            == front[i].written_at by {
            assert(layers[k].written_at == layers[i].written_at);
        }
        lemma_generation_start_at(front, i);
    }
}

/// `after` is `before` with each generation of one-axis layers, a run of neighbours
/// with one write time, replaced by its canonical layer, or by nothing where it holds
/// no tau. Generations with layers of more axes stay as they are.
pub open spec fn compacted<V: Datum>(before: Seq<Layer<V>>, after: Seq<Layer<V>>) -> bool
    decreases before.len(),
{
    if before.len() == 0 {
        after.len() == 0
    } else {
        proof {
            lemma_generation_start_range(before);
        }
        let k = generation_start(before);
        let group = before.skip(k);
        if !stack_one_axis(group) {
            &&& after.len() >= group.len()
            &&& after.skip(after.len() - group.len()) == group
            &&& compacted(before.take(k), after.take(after.len() - group.len()))
        } else if stack_empty(group) {
            compacted(before.take(k), after)
        } else {
            &&& after.len() > 0
            &&& merged(group, after.last())
            &&& compacted(before.take(k), after.drop_last())
        }
    }
}

proof fn lemma_trace_widen<V: Datum>(
    segs: Seq<Segment<V>>,
    f: spec_fn(Timestamp) -> Option<V>,
    start: int,
    end: int,
)
    requires
        traces(segs, f, start, end),
        i64::MIN <= start <= end <= end_of_time(),
        forall|t: Timestamp| !(start <= t < end) ==> #[trigger] f(t) is None,
    ensures
        traces(segs, f, i64::MIN as int, end_of_time()),
{
}

/// Off the bounds of its layers a stack says nothing.
proof fn lemma_outside_bounds<V>(layers: Seq<Layer<V>>, lo: int, hi: int, t: Timestamp)
    requires
        stack_wf(layers),
        stack_one_axis(layers),
        forall|i: int|
            0 <= i < layers.len() ==> lo <= (#[trigger] layers[i]).min_start && layers[i].max_end <= hi,
        !(lo <= t < hi),
    ensures
        newest(layers, seq![t], None) is None,
    decreases layers.len(),
{
    if layers.len() > 0 {
        let last = layers[layers.len() - 1];
        assert(last.wf());
        assert forall|k: int| 0 <= k < last.taus@.len() implies !(#[trigger] last.taus@[k]).covers(
            seq![t],
        ) by {
            lemma_bounds_hold(last.taus@, k);
            if last.taus@[k].covers(seq![t]) {
                assert(last.taus@[k].coords@[0].holds(seq![t][0]));
            }
        }
        lemma_no_hit(last.taus@, seq![t]);
        let front = layers.drop_last();
        assert forall|i: int| 0 <= i < front.len() implies (#[trigger] front[i]).wf()
            && front[i].one_axis() && lo <= front[i].min_start && front[i].max_end <= hi by {
            assert(layers[i].wf() && layers[i].one_axis());
            assert(lo <= layers[i].min_start && layers[i].max_end <= hi);
        }
        lemma_outside_bounds(front, lo, hi, t);
    }
}

/// A tau at a point makes the stack say something there.
proof fn lemma_inside<V>(layers: Seq<Layer<V>>, l: int, k: int)
    requires
        stack_wf(layers),
        stack_one_axis(layers),
        0 <= l < layers.len(),
        0 <= k < layers[l].taus@.len(),
    ensures
        newest(layers, seq![layers[l].taus@[k].coords@[0].lo], None) is Some,
    decreases layers.len(),
{
    let t = layers[l].taus@[k].coords@[0].lo;
    if l == layers.len() - 1 {
        let last = layers.last();
        assert(layers[l].wf() && layers[l].one_axis());
        assert(last.taus@[k].wf());
        assert(last.taus@[k].coords@.len() == 1);
        assert(last.taus@[k].coords@[0].lo < last.taus@[k].coords@[0].hi);
        assert(last.taus@[k].covers(seq![t]));
        lemma_no_hit(last.taus@, seq![t]);
    } else {
        let front = layers.drop_last();
        assert forall|i: int| 0 <= i < front.len() implies (#[trigger] front[i]).wf()
            && front[i].one_axis() by {
            assert(layers[i].wf() && layers[i].one_axis());
        }
        lemma_inside(front, l, k);
    }
}

/// Merges one generation of one-axis layers into its canonical layer; `None` where it
/// holds no tau.
fn merge_generation<V: Datum>(group: &[Layer<V>]) -> (r: Option<Layer<V>>)
    requires
        group@.len() > 0,
        stack_wf(group@),
        stack_one_axis(group@),
    ensures
        r is None <==> stack_empty(group@),
        r matches Some(layer) ==> merged(group@, layer),
{
    let n: usize = group.len();
    let mut lo: i64 = Timestamp::MAX;
    let mut hi: i64 = Timestamp::MIN;
    let mut i: usize = 0;
    while i < n
        invariant
            i <= n,
            n == group@.len(),
            stack_wf(group@),
            forall|k: int|
                0 <= k < i ==> lo <= (#[trigger] group@[k]).min_start && group@[k].max_end <= hi,
            stack_empty(group@.take(i as int)) ==> lo == i64::MAX && hi == i64::MIN,
            !stack_empty(group@.take(i as int)) ==> lo < hi,
        decreases n - i,
    {
        let ghost done = group@.take(i as int);
        let ghost lo0 = lo;
        let ghost hi0 = hi;
        if group[i].min_start < lo {
            lo = group[i].min_start;
        }
        if group[i].max_end > hi {
            hi = group[i].max_end;
        }
        proof {
            let layer = group@[i as int];
            assert(layer.wf());
            let next = group@.take(i + 1);
            assert(next.last() == layer);
            if layer.taus@.len() > 0 {
                assert(!stack_empty(next)) by {
                    assert(next[i as int].taus@.len() > 0);
                }
                assert(layer.taus@[0].wf());
                assert(layer.taus@[0].coords@[0].lo < layer.taus@[0].coords@[0].hi);
                lemma_bounds_hold(layer.taus@, 0);
            } else if stack_empty(done) {
                assert forall|k: int| 0 <= k < next.len() implies (#[trigger] next[k]).taus@.len() == 0 by {
                    if k < i {
                        assert(done[k].taus@.len() == 0);
                    }
                }
            } else {
                assert(lo <= lo0 < hi0 <= hi);
            }
        }
        i = i + 1;
    }
    assert(group@.take(n as int) =~= group@);
    if lo >= hi {
        return None;
    }
    let fixed: Vec<Timestamp> = Vec::new();
    let segs = scan_layers(group, lo, hi, &fixed, None);
    let ghost f = probe(group@, Seq::empty(), None);
    proof {
        assert(fixed@ =~= Seq::<Timestamp>::empty());
        assert forall|t: Timestamp| !(lo <= t < hi) implies #[trigger] f(t) is None by {
            lemma_outside_bounds(group@, lo as int, hi as int, t);
            assert(seq![t] + Seq::<Timestamp>::empty() =~= seq![t]);
        }
        lemma_trace_widen(segs@, f, lo as int, hi as int);
        let l = choose|l: int| 0 <= l < group@.len() && (#[trigger] group@[l]).taus@.len() != 0;
        let t = group@[l].taus@[0].coords@[0].lo;
        lemma_inside(group@, l, 0);
        assert(seq![t] + Seq::<Timestamp>::empty() =~= seq![t]);
        assert(f(t) is Some);
        assert(segs@.len() > 0);
    }
    let taus = taus_from_segments(segs);
    proof {
        assert(segments_of(taus@) =~= segs@) by {
            assert forall|k: int| 0 <= k < segs@.len() implies segments_of(taus@)[k] == segs@[k] by {
                assert(taus@[k].coords@[0].lo == segs@[k].0);
            }
        }
        assert(segs@[0].0 < segs@[0].1);
    }
    let id: LayerId = group[n - 1].id;
    let written_at: i64 = group[n - 1].written_at;
    Some(Layer::new_sorted_unchecked(id, taus, written_at))
}

/// One one-axis tau per segment.
pub(crate) fn taus_from_segments<V: Datum>(segs: Vec<Segment<V>>) -> (r: Vec<Tau<V>>)
    requires
        forall|i: int| 0 <= i < segs@.len() ==> (#[trigger] segs@[i]).0 < segs@[i].1,
        forall|i: int, j: int|
            #![trigger segs@[i], segs@[j]]
            0 <= i < j < segs@.len() ==> segs@[i].1 <= segs@[j].0,
    ensures
        r@.len() == segs@.len(),
        all_wf(r@),
        in_line(r@),
        forall|i: int|
            0 <= i < r@.len() ==> {
                &&& (#[trigger] r@[i]).coords@ =~= seq![(Bound { hi: segs@[i].1, lo: segs@[i].0 })]
                &&& r@[i].value == segs@[i].2
            },
{
    let mut out: Vec<Tau<V>> = Vec::new();
    let mut i: usize = 0;
    while i < segs.len()
        invariant
            i <= segs@.len(),
            forall|i: int| 0 <= i < segs@.len() ==> (#[trigger] segs@[i]).0 < segs@[i].1,
            out@.len() == i,
            forall|k: int|
                0 <= k < i ==> {
                    &&& (#[trigger] out@[k]).coords@ =~= seq![
                        (Bound { hi: segs@[k].1, lo: segs@[k].0 }),
                    ]
                    &&& out@[k].value == segs@[k].2
                    &&& out@[k].wf()
                },
        decreases segs@.len() - i,
    {
        let (lo, hi) = (segs[i].0, segs[i].1);
        let value = segs[i].2.dup();
        out.push(Tau::new(lo, hi, value));
        i = i + 1;
    }
    assert forall|i: int, j: int| #![trigger out@[i], out@[j]]
        0 <= i < j < out@.len() implies out@[i].coords@[0].hi <= out@[j].coords@[0].lo by {
        assert(segs@[i].1 <= segs@[j].0);
    }
    out
}

/// Whether every layer has one axis.
fn all_one_axis<V>(group: &[Layer<V>]) -> (r: bool)
    ensures
        r == stack_one_axis(group@),
{
    let mut i: usize = 0;
    while i < group.len()
        invariant
            i <= group@.len(),
            forall|k: int| 0 <= k < i ==> (#[trigger] group@[k]).one_axis(),
        decreases group@.len() - i,
    {
        let layer = &group[i];
        let mut k: usize = 0;
        while k < layer.taus.len()
            invariant
                i < group@.len(),
                *layer == group@[i as int],
                k <= layer.taus@.len(),
                forall|j: int| 0 <= j < k ==> (#[trigger] layer.taus@[j]).coords@.len() == 1,
            decreases layer.taus@.len() - k,
        {
            if layer.taus[k].arity() != 1 {
                assert(!group@[i as int].one_axis());
                return false;
            }
            k = k + 1;
        }
        i = i + 1;
    }
    true
}

/// Collapses each generation of a stack into canonical form. Layers with one write
/// time are taken for one generation where they are neighbours.
pub fn compact_layers<V: Datum>(layers: &mut Vec<Layer<V>>)
    requires
        stack_wf(old(layers)@),
    ensures
        compacted(old(layers)@, final(layers)@),
        stack_wf(final(layers)@),
{
    let ghost before = layers@;
    let n: usize = layers.len();
    let mut out: Vec<Layer<V>> = Vec::new();
    let mut i: usize = 0;
    assert(before.take(0) =~= Seq::empty());
    while i < n
        invariant
            i <= n,
            n == layers@.len(),
            layers@ == before,
            stack_wf(before),
            stack_wf(out@),
            0 < i < n ==> before[i - 1].written_at != before[i as int].written_at,
            compacted(before.take(i as int), out@),
        decreases n - i,
    {
        let mut j: usize = i + 1;
        while j < n && layers[j].written_at == layers[i].written_at
            invariant
                i < j <= n,
                n == layers@.len(),
                forall|k: int|
                    i <= k < j ==> (#[trigger] layers@[k]).written_at == layers@[i as int].written_at,
            decreases n - j,
        {
            j = j + 1;
        }
        let group = slice_subrange(layers.as_slice(), i, j);
        let ghost part = before.take(j as int);
        let ghost prefix = out@;
        proof {
            assert forall|k: int| i <= k < part.len() implies (#[trigger] part[k]).written_at
                == part[i as int].written_at by {
                assert(layers@[k].written_at == layers@[i as int].written_at);
            }
            lemma_generation_start_at(part, i as int);
            assert(part.skip(i as int) =~= group@);
            assert(part.take(i as int) =~= before.take(i as int));
            assert forall|k: int| 0 <= k < group@.len() implies (#[trigger] group@[k]).wf() by {
                assert(before[i + k].wf());
            }
        }
        if all_one_axis(group) {
            match merge_generation(group) {
                Some(layer) => {
                    out.push(layer);
                    assert(out@.drop_last() =~= prefix);
                },
                None => {},
            }
        } else {
            let mut k: usize = 0;
            while k < group.len()
                invariant
                    k <= group@.len(),
                    stack_wf(group@),
                    stack_wf(prefix),
                    out@ =~= prefix + group@.take(k as int),
                decreases group@.len() - k,
            {
                out.push(group[k].clone());
                k = k + 1;
            }
            proof {
                assert(out@ =~= prefix + group@);
                assert(out@.skip(out@.len() - group@.len()) =~= group@);
                assert(out@.take(out@.len() - group@.len()) =~= prefix);
            }
        }
        i = j;
    }
    assert(before.take(n as int) =~= before);
    *layers = out;
}

/// On one axis, the canonical layer answers every lookup as the stack did.
proof fn lemma_merged_agrees<V: Datum>(
    group: Seq<Layer<V>>,
    layer: Layer<V>,
    ts: Seq<Timestamp>,
    as_of: Option<i64>,
)
    requires
        group.len() > 0,
        stack_one_axis(group),
        forall|k: int|
            0 <= k < group.len() ==> (#[trigger] group[k]).written_at == group.last().written_at,
        merged(group, layer),
    ensures
        agree(newest(seq![layer], ts, as_of), newest(group, ts, as_of)),
{
    assert(seq![layer].last() == layer);
    assert(seq![layer].drop_last() =~= Seq::empty());
    assert(newest(seq![layer].drop_last(), ts, as_of) is None);
    lemma_one_generation(group, ts, as_of, group.last().written_at);
    if visible(layer, as_of) {
        if ts.len() == 1 {
            let t = ts[0];
            assert(ts =~= seq![t]);
            assert(seq![t] + Seq::<Timestamp>::empty() =~= seq![t]);
            let f = probe(group, Seq::empty(), None);
            let segs = segments_of(layer.taus@);
            assert(f(t) == newest(group, ts, None));
            lemma_line_hit(layer.taus@, t);
            lemma_value_at_none(layer.taus@, t);
            if f(t) is Some {
                let i = choose|i: int| 0 <= i < segs.len() && (#[trigger] segs[i]).0 <= t < segs[i].1;
                assert(layer.taus@[i].spans(t));
                lemma_value_at_only(layer.taus@, t, i);
                assert(agree(Some(segs[i].2), f(t)));
            } else {
                assert forall|i: int| 0 <= i < layer.taus@.len() implies !(#[trigger] layer.taus@[i]).spans(
                    t,
                ) by {
                    if layer.taus@[i].spans(t) {
                        assert(segs[i].0 <= t < segs[i].1);
                        assert(agree(Some(segs[i].2), f(t)));
                    }
                }
            }
        } else {
            lemma_wrong_arity(group, ts, None);
            assert forall|k: int| 0 <= k < layer.taus@.len() implies !(#[trigger] layer.taus@[k]).covers(ts) by {
                assert(layer.taus@[k].coords@.len() == 1);
            }
            lemma_no_hit(layer.taus@, ts);
        }
    }
}

/// A generation is visible as a whole or not at all.
proof fn lemma_one_generation<V>(
    group: Seq<Layer<V>>,
    ts: Seq<Timestamp>,
    as_of: Option<i64>,
    written_at: i64,
)
    requires
        forall|k: int| 0 <= k < group.len() ==> (#[trigger] group[k]).written_at == written_at,
    ensures
        (as_of matches Some(limit) ==> written_at <= limit) ==> newest(group, ts, as_of) == newest(
            group,
            ts,
            None,
        ),
        !(as_of matches Some(limit) ==> written_at <= limit) ==> newest(group, ts, as_of) is None,
    decreases group.len(),
{
    if group.len() > 0 {
        assert(group[group.len() - 1].written_at == written_at);
        let front = group.drop_last();
        assert forall|k: int| 0 <= k < front.len() implies (#[trigger] front[k]).written_at
            == written_at by {
            assert(group[k].written_at == written_at);
        }
        lemma_one_generation(front, ts, as_of, written_at);
    }
}

proof fn lemma_wrong_arity<V>(group: Seq<Layer<V>>, ts: Seq<Timestamp>, as_of: Option<i64>)
    requires
        stack_one_axis(group),
        ts.len() != 1,
    ensures
        newest(group, ts, as_of) is None,
    decreases group.len(),
{
    if group.len() > 0 {
        let last = group[group.len() - 1];
        assert(last.one_axis());
        assert forall|k: int| 0 <= k < last.taus@.len() implies !(#[trigger] last.taus@[k]).covers(ts) by {
            assert(last.taus@[k].coords@.len() == 1);
        }
        lemma_no_hit(last.taus@, ts);
        let front = group.drop_last();
        assert forall|k: int| 0 <= k < front.len() implies (#[trigger] front[k]).one_axis() by {
            assert(group[k].one_axis());
        }
        lemma_wrong_arity(front, ts, as_of);
    }
}

proof fn lemma_empty_stack<V>(group: Seq<Layer<V>>, ts: Seq<Timestamp>, as_of: Option<i64>)
    requires
        stack_empty(group),
    ensures
        newest(group, ts, as_of) is None,
    decreases group.len(),
{
    if group.len() > 0 {
        assert(group[group.len() - 1].taus@.len() == 0);
        let front = group.drop_last();
        assert forall|k: int| 0 <= k < front.len() implies (#[trigger] front[k]).taus@.len() == 0 by {
            assert(group[k].taus@.len() == 0);
        }
        lemma_empty_stack(front, ts, as_of);
    }
}

/// Compaction preserves every lookup, of now and of any transaction time.
pub proof fn law_compaction_preserves_lookups<V: Datum>(
    before: Seq<Layer<V>>,
    after: Seq<Layer<V>>,
    ts: Seq<Timestamp>,
    as_of: Option<i64>,
)
    requires
        compacted(before, after),
    ensures
        agree(newest(after, ts, as_of), newest(before, ts, as_of)),
    decreases before.len(),
{
    if before.len() > 0 {
        lemma_generation_start_range(before);
        let k = generation_start(before);
        let group = before.skip(k);
        let head = before.take(k);
        assert(head + group =~= before);
        lemma_newest_split(head, group, ts, as_of);
        assert forall|i: int| 0 <= i < group.len() implies (#[trigger] group[i]).written_at
            == group.last().written_at by {
            assert(before[k + i].written_at == before.last().written_at);
        }
        if !stack_one_axis(group) {
            let m = after.len() - group.len();
            assert(after.take(m) + after.skip(m) =~= after);
            law_compaction_preserves_lookups(head, after.take(m), ts, as_of);
            lemma_newest_split(after.take(m), group, ts, as_of);
        } else if stack_empty(group) {
            lemma_empty_stack(group, ts, as_of);
            law_compaction_preserves_lookups(head, after, ts, as_of);
        } else {
            law_compaction_preserves_lookups(head, after.drop_last(), ts, as_of);
            lemma_merged_agrees(group, after.last(), ts, as_of);
            assert(after.drop_last() + seq![after.last()] =~= after);
            lemma_newest_split(after.drop_last(), seq![after.last()], ts, as_of);
        }
    }
}

/// Compaction never makes a stack taller.
pub proof fn law_compaction_never_grows<V: Datum>(before: Seq<Layer<V>>, after: Seq<Layer<V>>)
    requires
        compacted(before, after),
    ensures
        after.len() <= before.len(),
    decreases before.len(),
{
    if before.len() > 0 {
        lemma_generation_start_range(before);
        let k = generation_start(before);
        let group = before.skip(k);
        if !stack_one_axis(group) {
            law_compaction_never_grows(before.take(k), after.take(after.len() - group.len()));
        } else if stack_empty(group) {
            law_compaction_never_grows(before.take(k), after);
        } else {
            law_compaction_never_grows(before.take(k), after.drop_last());
        }
    }
}

/// A stack of one-axis layers that share one write time is left with one layer, or none
/// where it held no tau.
pub proof fn law_one_generation_one_layer<V: Datum>(before: Seq<Layer<V>>, after: Seq<Layer<V>>)
    requires
        compacted(before, after),
        stack_one_axis(before),
        forall|i: int|
            0 <= i < before.len() ==> (#[trigger] before[i]).written_at == before[0].written_at,
    ensures
        after.len() <= 1,
        after.len() == 0 <==> stack_empty(before),
{
    if before.len() > 0 {
        reveal_with_fuel(compacted, 2);
        lemma_generation_start_at(before, 0);
        assert(before.skip(0) =~= before);
        assert(before.take(0) =~= Seq::empty());
        assert(after.len() > 0 ==> after.drop_last().len() == after.len() - 1);
    }
}

/// The stack has a layer with data that was written at `w`.
pub open spec fn has_generation<V>(layers: Seq<Layer<V>>, w: i64) -> bool {
    exists|i: int|
        0 <= i < layers.len() && (#[trigger] layers[i]).written_at == w && layers[i].taus@.len() > 0
}

proof fn lemma_generation_split<V>(a: Seq<Layer<V>>, b: Seq<Layer<V>>, w: i64)
    ensures
        has_generation(a + b, w) <==> has_generation(a, w) || has_generation(b, w),
{
    if has_generation(a + b, w) {
        let i = choose|i: int|
            0 <= i < (a + b).len() && (#[trigger] (a + b)[i]).written_at == w
                && (a + b)[i].taus@.len() > 0;
        if i < a.len() {
            assert(a[i].written_at == w);
        } else {
            assert(b[i - a.len()].written_at == w);
        }
    }
    if has_generation(a, w) {
        let i = choose|i: int|
            0 <= i < a.len() && (#[trigger] a[i]).written_at == w && a[i].taus@.len() > 0;
        assert((a + b)[i] == a[i]);
    }
    if has_generation(b, w) {
        let i = choose|i: int|
            0 <= i < b.len() && (#[trigger] b[i]).written_at == w && b[i].taus@.len() > 0;
        assert((a + b)[a.len() + i] == b[i]);
    }
}

/// Every transaction-time generation that holds data survives compaction, and none
/// appears.
pub proof fn law_generations_survive<V: Datum>(
    before: Seq<Layer<V>>,
    after: Seq<Layer<V>>,
    w: i64,
)
    requires
        compacted(before, after),
    ensures
        has_generation(after, w) <==> has_generation(before, w),
    decreases before.len(),
{
    if before.len() > 0 {
        lemma_generation_start_range(before);
        let k = generation_start(before);
        let group = before.skip(k);
        let head = before.take(k);
        assert(head + group =~= before);
        lemma_generation_split(head, group, w);
        if !stack_one_axis(group) {
            let m = after.len() - group.len();
            assert(after.take(m) + after.skip(m) =~= after);
            law_generations_survive(head, after.take(m), w);
            lemma_generation_split(after.take(m), group, w);
        } else if stack_empty(group) {
            law_generations_survive(head, after, w);
            assert(!has_generation(group, w)) by {
                if has_generation(group, w) {
                    let i = choose|i: int|
                        0 <= i < group.len() && (#[trigger] group[i]).written_at == w
                            && group[i].taus@.len() > 0;
                    assert(group[i].taus@.len() == 0);
                }
            }
        } else {
            let last = after.last();
            law_generations_survive(head, after.drop_last(), w);
            assert(after.drop_last() + seq![last] =~= after);
            lemma_generation_split(after.drop_last(), seq![last], w);
            let l = choose|l: int| 0 <= l < group.len() && (#[trigger] group[l]).taus@.len() != 0;
            assert(before[k + l].written_at == before.last().written_at);
            assert(seq![last][0] == last);
            if has_generation(group, w) {
                let i = choose|i: int|
                    0 <= i < group.len() && (#[trigger] group[i]).written_at == w
                        && group[i].taus@.len() > 0;
                assert(before[k + i].written_at == before.last().written_at);
                assert(has_generation(seq![last], w));
            }
            if has_generation(seq![last], w) {
                assert(group[l].written_at == w);
                assert(has_generation(group, w));
            }
        }
    }
}

/// Two strictly ascending sequences with the same members are the same.
pub proof fn lemma_sorted_unique(a: Seq<Timestamp>, b: Seq<Timestamp>)
    requires
        strictly_ascending(a),
        strictly_ascending(b),
        forall|t: Timestamp| #[trigger] among(a, t) <==> among(b, t),
    ensures
        a == b,
    decreases a.len(),
{
    if a.len() == 0 {
        if b.len() > 0 {
            assert(among(b, b[0]));
            assert(among(a, b[0]));
        }
        assert(a =~= b);
    } else {
        assert(among(a, a.last()));
        assert(among(b, a.last()));
        let i = choose|i: int| 0 <= i < b.len() && #[trigger] b[i] == a.last();
        assert(among(b, b.last()));
        assert(among(a, b.last()));
        let j = choose|j: int| 0 <= j < a.len() && #[trigger] a[j] == b.last();
        let (n, m) = (a.len() - 1, b.len() - 1);
        if i < m {
            assert(b[i] < b[m]);
            if j < n {
                assert(a[j] < a[n]);
            }
        }
        assert(a.last() == b.last());
        let (x, y) = (a.drop_last(), b.drop_last());
        assert forall|t: Timestamp| #[trigger] among(x, t) <==> among(y, t) by {
            if among(x, t) {
                let k = choose|k: int| 0 <= k < x.len() && #[trigger] x[k] == t;
                assert(a[k] == t && a[k] < a[n]);
                assert(among(a, t));
                assert(among(b, t));
                let l = choose|l: int| 0 <= l < b.len() && #[trigger] b[l] == t;
                assert(y[l] == t);
            }
            if among(y, t) {
                let k = choose|k: int| 0 <= k < y.len() && #[trigger] y[k] == t;
                assert(b[k] == t && b[k] < b[m]);
                assert(among(b, t));
                assert(among(a, t));
                let l = choose|l: int| 0 <= l < a.len() && #[trigger] a[l] == t;
                assert(x[l] == t);
            }
        }
        assert forall|p: int, q: int| #![trigger x[p], x[q]] 0 <= p < q < x.len() implies x[p] < x[q] by {
            assert(a[p] < a[q]);
        }
        assert forall|p: int, q: int| #![trigger y[p], y[q]] 0 <= p < q < y.len() implies y[p] < y[q] by {
            assert(b[p] < b[q]);
        }
        lemma_sorted_unique(x, y);
        assert(a =~= x.push(a.last()));
        assert(b =~= y.push(b.last()));
    }
}

/// A canonical layer is as coarse as can be: where one tau ends as the next begins, their
/// values differ.
pub proof fn law_canonical_layer_is_coarse<V: Datum>(
    group: Seq<Layer<V>>,
    layer: Layer<V>,
    i: int,
)
    requires
        merged(group, layer),
        0 <= i < layer.taus@.len() - 1,
        layer.taus@[i].coords@[0].hi == layer.taus@[i + 1].coords@[0].lo,
    ensures
        !layer.taus@[i].value.alike(&layer.taus@[i + 1].value),
{
    let segs = segments_of(layer.taus@);
    assert(segs[i].1 == segs[i + 1].0);
}

} // verus!
