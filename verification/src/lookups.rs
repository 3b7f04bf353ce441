//! What lookups answer.

use crate::ast::{Expr, Stmt};
use crate::depth::law_derivations_run_out;
use crate::error::{ExecError, ExecErrorV};
use crate::eval::expr_at;
use crate::inputs::Inputs;
use crate::layers::{agree, newest, probe, traces, Segment};
use crate::memory::stack_of;
use crate::model::{first_hit, Layer, LayerId, Tau};
use crate::output::{LayerInfo, Output};
use crate::query::{at_of, history_of, numbered_hit};
use crate::read::answers;
use crate::state::StateV;
use crate::value::Value;
use crate::windows::in_segment;
use vstd::prelude::*;

verus! {

pub type Databases = Map<Seq<char>, StateV>;

/// The tau of a layer with a number holds at a point: the point lies in its interval on every
/// axis.
pub open spec fn tau_holds(layer: Layer<Value>, k: int, ts: Seq<i64>) -> bool {
    &&& 0 <= k < layer.taus@.len()
    &&& layer.taus@[k].coords@.len() == ts.len()
    &&& forall|d: int|
        0 <= d < ts.len() ==> (#[trigger] layer.taus@[k].coords@[d]).lo <= ts[d] && ts[d]
            < layer.taus@[k].coords@[d].hi
}

/// The layer had been written by a time; any layer where none is given.
pub open spec fn written_by(layer: Layer<Value>, as_of: Option<i64>) -> bool {
    match as_of {
        Some(w) => layer.written_at <= w,
        None => true,
    }
}

/// The last of the layers that had been written by a time and that hold the point has this
/// value there; none where there is no such layer.
pub open spec fn last_word(
    stack: Seq<Layer<Value>>,
    ts: Seq<i64>,
    as_of: Option<i64>,
    v: Option<Value>,
) -> bool {
    match v {
        Some(v) => exists|i: int, k: int|
            {
                &&& 0 <= i < stack.len()
                &&& #[trigger] tau_holds(stack[i], k, ts)
                &&& written_by(stack[i], as_of)
                &&& stack[i].taus@[k].value == v
                &&& forall|j: int, m: int|
                    i < j < stack.len() && written_by(stack[j], as_of) ==> !#[trigger] tau_holds(
                        stack[j],
                        m,
                        ts,
                    )
            },
        None => forall|i: int, k: int|
            0 <= i < stack.len() && written_by(stack[i], as_of) ==> !#[trigger] tau_holds(
                stack[i],
                k,
                ts,
            ),
    }
}

proof fn lemma_covers(layer: Layer<Value>, k: int, ts: Seq<i64>)
    requires
        0 <= k < layer.taus@.len(),
    ensures
        tau_holds(layer, k, ts) == layer.taus@[k].covers(ts),
{
    let c = layer.taus@[k].coords@;
    if layer.taus@[k].covers(ts) {
        assert forall|d: int| 0 <= d < ts.len() implies (#[trigger] layer.taus@[k].coords@[d]).lo
            <= ts[d] && ts[d] < layer.taus@[k].coords@[d].hi by {
            assert(c[d].holds(ts[d]));
        }
    }
    if tau_holds(layer, k, ts) {
        assert forall|d: int| 0 <= d < ts.len() implies (#[trigger] c[d]).holds(ts[d]) by {
            assert(layer.taus@[k].coords@[d].lo <= ts[d]);
        }
    }
}

proof fn lemma_first_hit(taus: Seq<Tau<Value>>, ts: Seq<i64>)
    ensures
        match first_hit(taus, ts) {
            Some(v) => exists|k: int|
                0 <= k < taus.len() && (#[trigger] taus[k]).covers(ts) && taus[k].value == v,
            None => forall|k: int| 0 <= k < taus.len() ==> !(#[trigger] taus[k]).covers(ts),
        },
    decreases taus.len(),
{
    if taus.len() > 0 {
        let rest = taus.drop_first();
        lemma_first_hit(rest, ts);
        if taus[0].covers(ts) {
        } else if first_hit(rest, ts) is Some {
            let k = choose|k: int|
                0 <= k < rest.len() && (#[trigger] rest[k]).covers(ts) && rest[k].value
                    == first_hit(rest, ts)->0;
            assert(taus[k + 1] == rest[k]);
        } else {
            assert forall|k: int| 0 <= k < taus.len() implies !(#[trigger] taus[k]).covers(ts) by {
                if k > 0 {
                    assert(taus[k] == rest[k - 1]);
                }
            }
        }
    }
}

/// What a layer says of a point.
proof fn lemma_layer_says(layer: Layer<Value>, ts: Seq<i64>)
    ensures
        match layer.hit(ts) {
            Some(v) => exists|k: int| #[trigger]
                tau_holds(layer, k, ts) && layer.taus@[k].value == v,
            None => forall|k: int| !#[trigger] tau_holds(layer, k, ts),
        },
{
    lemma_first_hit(layer.taus@, ts);
    if let Some(v) = layer.hit(ts) {
        let k = choose|k: int|
            0 <= k < layer.taus@.len() && (#[trigger] layer.taus@[k]).covers(ts)
                && layer.taus@[k].value == v;
        lemma_covers(layer, k, ts);
        assert(tau_holds(layer, k, ts));
    } else {
        assert forall|k: int| !#[trigger] tau_holds(layer, k, ts) by {
            if tau_holds(layer, k, ts) {
                lemma_covers(layer, k, ts);
            }
        }
    }
}

pub proof fn lemma_newest_is_last_word(
    stack: Seq<Layer<Value>>,
    ts: Seq<i64>,
    as_of: Option<i64>,
)
    ensures
        last_word(stack, ts, as_of, newest(stack, ts, as_of)),
    decreases stack.len(),
{
    if stack.len() > 0 {
        let n = stack.len() - 1;
        let less = stack.drop_last();
        lemma_layer_says(stack[n], ts);
        lemma_newest_is_last_word(less, ts, as_of);
        if written_by(stack[n], as_of) && stack[n].hit(ts) is Some {
            let v = stack[n].hit(ts)->0;
            let k = choose|k: int| #[trigger]
                tau_holds(stack[n], k, ts) && stack[n].taus@[k].value == v;
            assert(tau_holds(stack[n], k, ts));
        } else if let Some(v) = newest(less, ts, as_of) {
            let (i, k) = choose|i: int, k: int|
                {
                    &&& 0 <= i < less.len()
                    &&& #[trigger] tau_holds(less[i], k, ts)
                    &&& written_by(less[i], as_of)
                    &&& less[i].taus@[k].value == v
                    &&& forall|j: int, m: int|
                        i < j < less.len() && written_by(less[j], as_of) ==> !#[trigger] tau_holds(
                            less[j],
                            m,
                            ts,
                        )
                };
            assert(tau_holds(stack[i], k, ts));
            assert forall|j: int, m: int|
                i < j < stack.len() && written_by(stack[j], as_of) implies !#[trigger] tau_holds(
                stack[j],
                m,
                ts,
            ) by {
                if j < n {
                    assert(!tau_holds(less[j], m, ts));
                }
            }
        } else {
            assert forall|i: int, k: int|
                0 <= i < stack.len() && written_by(stack[i], as_of) implies !#[trigger] tau_holds(
                stack[i],
                k,
                ts,
            ) by {
                if i < n {
                    assert(!tau_holds(less[i], k, ts));
                }
            }
        }
    }
}

/// The lens is a base lens of one axis in the active database.
pub open spec fn is_plain_lens(
    databases: Databases,
    active: Option<Seq<char>>,
    name: Seq<char>,
) -> bool {
    &&& active is Some
    &&& databases.contains_key(active->0)
    &&& databases[active->0].types.contains_key(name)
    &&& !databases[active->0].axes.contains_key(name)
}

/// The layers of a lens in the active database, oldest first.
pub open spec fn layers_in(
    databases: Databases,
    active: Option<Seq<char>>,
    name: Seq<char>,
) -> Seq<Layer<Value>> {
    stack_of(databases[active->0].db.stacks, name)
}

/// `AT LENS ... AS OF w` gives the value at the time of the last layer that had been written by
/// `w` and holds the time; nothing where there is none.
pub proof fn law_as_of_sees_what_was_written_by_then(
    databases: Databases,
    active: Option<Seq<char>>,
    name: String,
    t: i64,
    w: i64,
    inputs: &Inputs,
    r: Result<Output, ExecError>,
)
    requires
        is_plain_lens(databases, active, name@),
        answers(databases, active, &Stmt::AtAsOf { name, t, as_of: w }, inputs, r),
    ensures
        r matches Ok(Output::Value(v)) && last_word(
            layers_in(databases, active, name@),
            seq![t],
            Some(w),
            v,
        ),
{
    lemma_newest_is_last_word(layers_in(databases, active, name@), seq![t], Some(w));
}

/// Seconds of a clock in milliseconds, without their fraction.
pub open spec fn seconds(ms: i64) -> int {
    if ms >= 0 {
        ms / 1000
    } else {
        -(-ms / 1000)
    }
}

/// The lens has a time to live, and the time lies before it.
pub open spec fn outlived(ttl: Map<Seq<char>, i64>, name: Seq<char>, t: i64, now_ms: i64) -> bool {
    ttl.contains_key(name) && t < seconds(now_ms) - ttl[name] && t < i64::MAX
}

/// `AT LENS` on a base lens gives the value at the time of the last layer that holds the time;
/// nothing where there is none, or where the time lies before the lens's time to live.
pub proof fn law_at_sees_the_last_layer(
    databases: Databases,
    active: Option<Seq<char>>,
    name: String,
    t: i64,
    inputs: &Inputs,
    r: Result<Output, ExecError>,
)
    requires
        is_plain_lens(databases, active, name@),
        answers(databases, active, &Stmt::At { name, t }, inputs, r),
    ensures
        r matches Ok(Output::Value(v)) && if outlived(
            databases[active->0].ttl,
            name@,
            t,
            inputs.now_ms,
        ) {
            v is None
        } else {
            last_word(layers_in(databases, active, name@), seq![t], None, v)
        },
{
    lemma_newest_is_last_word(layers_in(databases, active, name@), seq![t], None);
}

/// How many axes a lens was declared with.
pub open spec fn axis_count(s: StateV, name: Seq<char>) -> nat {
    if s.axes.contains_key(name) {
        s.axes[name].len()
    } else {
        1
    }
}

/// `AT LENS` with one coordinate per axis gives the value of the last layer that holds the
/// point, among those written by a time if one is given. Another number of coordinates is
/// refused.
pub proof fn law_point_lookup_sees_the_last_layer(
    databases: Databases,
    active: Option<Seq<char>>,
    name: String,
    ts: Vec<i64>,
    as_of: Option<i64>,
    inputs: &Inputs,
    r: Result<Output, ExecError>,
)
    requires
        active is Some,
        databases.contains_key(active->0),
        databases[active->0].types.contains_key(name@),
        answers(databases, active, &Stmt::AtNd { name, ts, as_of }, inputs, r),
    ensures
        ts@.len() != axis_count(databases[active->0], name@) ==> r is Err && r->Err_0@
            is InvalidExpr,
        ts@.len() == axis_count(databases[active->0], name@) ==> (r matches Ok(Output::Value(v))
            && last_word(layers_in(databases, active, name@), ts@, as_of, v)),
{
    lemma_newest_is_last_word(layers_in(databases, active, name@), ts@, as_of);
}

proof fn lemma_numbered(stack: Seq<Layer<Value>>, id: LayerId, ts: Seq<i64>)
    ensures
        (forall|i: int| 0 <= i < stack.len() ==> (#[trigger] stack[i]).id != id) ==> numbered_hit(
            stack,
            id,
            ts,
        ) is None,
        forall|i: int|
            #![trigger stack[i]]
            0 <= i < stack.len() && stack[i].id == id && (forall|j: int|
                0 <= j < i ==> (#[trigger] stack[j]).id != id) ==> numbered_hit(stack, id, ts)
                == stack[i].hit(ts),
    decreases stack.len(),
{
    if stack.len() > 0 {
        let rest = stack.drop_first();
        lemma_numbered(rest, id, ts);
        if stack[0].id != id {
            if forall|i: int| 0 <= i < stack.len() ==> (#[trigger] stack[i]).id != id {
                assert forall|i: int| 0 <= i < rest.len() implies (#[trigger] rest[i]).id != id by {
                    assert(rest[i] == stack[i + 1]);
                }
            }
            assert forall|i: int|
                #![trigger stack[i]]
                0 <= i < stack.len() && stack[i].id == id && (forall|j: int|
                    0 <= j < i ==> (#[trigger] stack[j]).id != id) implies numbered_hit(
                stack,
                id,
                ts,
            ) == stack[i].hit(ts) by {
                assert(rest[i - 1] == stack[i]);
                assert forall|j: int| 0 <= j < i - 1 implies (#[trigger] rest[j]).id != id by {
                    assert(rest[j] == stack[j + 1]);
                }
            }
        }
    }
}

/// `AT LENS ... LAYER` gives the value at the time of the oldest layer with the number, and
/// nothing where it does not hold the time or there is no such layer.
pub proof fn law_layer_lookup_sees_one_layer(
    databases: Databases,
    active: Option<Seq<char>>,
    name: String,
    t: i64,
    layer_id: LayerId,
    inputs: &Inputs,
    r: Result<Output, ExecError>,
    i: int,
)
    requires
        is_plain_lens(databases, active, name@),
        answers(databases, active, &Stmt::AtLayer { name, t, layer_id }, inputs, r),
    ensures
        ({
            let stack = layers_in(databases, active, name@);
            &&& (forall|j: int| 0 <= j < stack.len() ==> (#[trigger] stack[j]).id != layer_id)
                ==> r == Ok::<Output, ExecError>(Output::Value(None))
            &&& 0 <= i < stack.len() && stack[i].id == layer_id && (forall|j: int|
                0 <= j < i ==> (#[trigger] stack[j]).id != layer_id) ==> (r matches Ok(
                Output::Value(v),
            ) && last_word(seq![stack[i]], seq![t], None, v))
        }),
{
    let stack = layers_in(databases, active, name@);
    lemma_numbered(stack, layer_id, seq![t]);
    if 0 <= i < stack.len() {
        let one = seq![stack[i]];
        lemma_newest_is_last_word(one, seq![t], None);
        assert(one.drop_last() =~= Seq::empty());
        assert(newest(one.drop_last(), seq![t], None) is None);
        assert(one.last() == stack[i]);
        assert(newest(one, seq![t], None) == stack[i].hit(seq![t]));
    }
}

/// The layer reaches into the window; any layer where none is given.
pub open spec fn reaches_into(layer: Layer<Value>, range: Option<(i64, i64)>) -> bool {
    match range {
        Some((start, end)) => layer.min_start < end && start < layer.max_end,
        None => true,
    }
}

/// The line tells of the layer.
pub open spec fn tells_of(info: LayerInfo, layer: Layer<Value>) -> bool {
    &&& info.id == layer.id
    &&& info.written_at == layer.written_at
    &&& info.min_start == layer.min_start
    &&& info.max_end == layer.max_end
    &&& info.tau_count == layer.taus@.len()
}

/// The lines tell of the layers at the given places, which are those that reach into the
/// window.
pub open spec fn tells_history(
    stack: Seq<Layer<Value>>,
    range: Option<(i64, i64)>,
    infos: Seq<LayerInfo>,
    at: Seq<int>,
) -> bool {
    &&& at.len() == infos.len()
    &&& forall|k: int|
        0 <= k < at.len() ==> 0 <= #[trigger] at[k] < stack.len() && reaches_into(
            stack[at[k]],
            range,
        ) && tells_of(infos[k], stack[at[k]])
    &&& forall|k: int, l: int|
        #![trigger at[k], at[l]]
        0 <= k < l < at.len() ==> at[k] < at[l]
    &&& forall|i: int|
        0 <= i < stack.len() && reaches_into(#[trigger] stack[i], range) ==> at.contains(i)
}

proof fn lemma_history(stack: Seq<Layer<Value>>, range: Option<(i64, i64)>) -> (at: Seq<int>)
    requires
        forall|i: int| 0 <= i < stack.len() ==> (#[trigger] stack[i]).taus@.len() <= usize::MAX,
    ensures
        tells_history(stack, range, history_of(stack, range), at),
    decreases stack.len(),
{
    if stack.len() == 0 {
        Seq::empty()
    } else {
        let n = stack.len() - 1;
        let less = stack.drop_last();
        assert forall|i: int| 0 <= i < less.len() implies (#[trigger] less[i]).taus@.len()
            <= usize::MAX by {
            assert(less[i] == stack[i]);
        }
        let before = lemma_history(less, range);
        let infos = history_of(stack, range);
        let at = if reaches_into(stack[n], range) {
            before.push(n)
        } else {
            before
        };
        assert forall|k: int| 0 <= k < at.len() implies 0 <= #[trigger] at[k] < stack.len()
            && reaches_into(stack[at[k]], range) && tells_of(infos[k], stack[at[k]]) by {
            if k < before.len() {
                assert(0 <= before[k] < less.len());
                assert(less[before[k]] == stack[before[k]]);
            } else {
                assert(stack[n].taus@.len() <= usize::MAX);
            }
        }
        assert forall|i: int|
            0 <= i < stack.len() && reaches_into(#[trigger] stack[i], range) implies at.contains(
            i,
        ) by {
            if i < n {
                assert(less[i] == stack[i]);
                assert(before.contains(i));
                let k = choose|k: int| 0 <= k < before.len() && before[k] == i;
                assert(at[k] == i);
            } else {
                assert(at[before.len() as int] == n);
            }
        }
        at
    }
}

/// `HISTORY LENS` tells of the layers that reach into the window, oldest first, each with its
/// number, its write time, its extent and how many values it holds.
pub proof fn law_history_tells_of_the_layers(
    databases: Databases,
    active: Option<Seq<char>>,
    name: String,
    range: Option<(i64, i64)>,
    inputs: &Inputs,
    r: Result<Output, ExecError>,
)
    requires
        active is Some,
        databases.contains_key(active->0),
        databases[active->0].types.contains_key(name@),
        answers(databases, active, &Stmt::HistoryLens { name, range }, inputs, r),
        forall|i: int|
            0 <= i < layers_in(databases, active, name@).len() ==> (#[trigger] layers_in(
                databases,
                active,
                name@,
            )[i]).taus@.len() <= usize::MAX,
    ensures
        r matches Ok(Output::LayerHistory(infos)) && exists|at: Seq<int>| #[trigger]
            tells_history(layers_in(databases, active, name@), range, infos@, at),
{
    let at = lemma_history(layers_in(databases, active, name@), range);
}

/// `RANGE LENS` along valid time with the other axes fixed shows at each time of the window the
/// value of the last layer that holds the point, up to values that count as equal, and nothing
/// where there is none. The stretches follow each other.
pub proof fn law_slice_sees_the_last_layer(
    databases: Databases,
    active: Option<Seq<char>>,
    name: String,
    start: i64,
    end: i64,
    fixed: Vec<i64>,
    inputs: &Inputs,
    r: Result<Output, ExecError>,
    t: i64,
)
    requires
        active is Some,
        databases.contains_key(active->0),
        databases[active->0].types.contains_key(name@),
        fixed@.len() + 1 == axis_count(databases[active->0], name@),
        start <= t < end,
        answers(databases, active, &Stmt::RangeNd { name, start, end, fixed }, inputs, r),
    ensures
        r matches Ok(Output::Range(segs)) && {
            &&& in_order(segs@, start, end)
            &&& exists|v: Option<Value>| #[trigger]
                last_word(layers_in(databases, active, name@), seq![t] + fixed@, None, v) && match v {
                    Some(v) => exists|i: int| #[trigger]
                        in_segment(segs@, i, t) && agree(Some(segs@[i].2), Some(v)),
                    None => forall|i: int| !#[trigger] in_segment(segs@, i, t),
                }
        },
{
    let stack = layers_in(databases, active, name@);
    let p = probe(stack, fixed@, None);
    lemma_newest_is_last_word(stack, seq![t] + fixed@, None);
    let v = newest(stack, seq![t] + fixed@, None);
    assert(r is Ok && r->Ok_0 is Range);
    let segs = r->Ok_0->Range_0@;
    assert(traces(segs, p, start as int, end as int));
    lemma_trace_shows(segs, p, start, end, t);
    assert(p(t) == v);
}

/// The stretches lie in the window, are not empty and follow each other.
pub open spec fn in_order(segs: Seq<Segment<Value>>, start: i64, end: i64) -> bool {
    &&& forall|i: int| 0 <= i < segs.len() ==> start <= (#[trigger] segs[i]).0 < segs[i].1 <= end
    &&& forall|i: int, j: int|
        #![trigger segs[i], segs[j]]
        0 <= i < j < segs.len() ==> segs[i].1 <= segs[j].0
}

pub proof fn lemma_trace_shows(
    segs: Seq<Segment<Value>>,
    f: spec_fn(i64) -> Option<Value>,
    start: i64,
    end: i64,
    t: i64,
)
    requires
        traces(segs, f, start as int, end as int),
        start <= t < end,
    ensures
        in_order(segs, start, end),
        match f(t) {
            Some(v) => exists|i: int| #[trigger]
                in_segment(segs, i, t) && agree(Some(segs[i].2), Some(v)),
            None => forall|i: int| !#[trigger] in_segment(segs, i, t),
        },
{
    if let Some(v) = f(t) {
        let i = choose|i: int| 0 <= i < segs.len() && (#[trigger] segs[i]).0 <= t < segs[i].1;
        assert(in_segment(segs, i, t));
        assert(agree(Some(segs[i].2), f(t)));
    } else {
        assert forall|i: int| !#[trigger] in_segment(segs, i, t) by {
            if in_segment(segs, i, t) {
                assert(agree(Some(segs[i].2), f(t)));
            }
        }
    }
}

/// `AT LENS` on a derived lens gives the value of its expression at the time; nothing outside
/// the window of the lens or before its time to live.
pub proof fn law_derived_lens_is_its_expression(
    databases: Databases,
    active: Option<Seq<char>>,
    name: String,
    t: i64,
    inputs: &Inputs,
    r: Result<Output, ExecError>,
)
    requires
        active is Some,
        databases.contains_key(active->0),
        databases[active->0].wf(),
        databases[active->0].derived.contains_key(name@),
        !databases[active->0].axes.contains_key(name@),
        answers(databases, active, &Stmt::At { name, t }, inputs, r),
    ensures
        ({
            let s = databases[active->0];
            let outside = s.ranges.contains_key(name@) && !(s.ranges[name@].0 <= t
                < s.ranges[name@].1);
            if outlived(s.ttl, name@, t, inputs.now_ms) || outside {
                r == Ok::<Output, ExecError>(Output::Value(None))
            } else {
                match expr_at(s.env(inputs), &*s.derived[name@], t, s.fuel()) {
                    Ok(v) => r == Ok::<Output, ExecError>(Output::Value(v)),
                    Err(e) => r is Err && r->Err_0@ == e,
                }
            }
        }),
{
    let s = databases[active->0];
    let env = s.env(inputs);
    assert(s.derived.dom().contains(name@));
    law_derivations_run_out(env, name@, &*s.derived[name@], t, s.fuel() + 1);
}

/// A lens in an expression stands for what `AT LENS` gives of it at the same time.
pub proof fn law_lens_in_expression_is_looked_up(
    s: StateV,
    name: String,
    t: i64,
    inputs: &Inputs,
)
    requires
        !s.axes.contains_key(name@),
        s.has_lens(name@),
    ensures
        expr_at(s.env(inputs), &Expr::Ident(name), t, s.fuel()) == at_of(s, name@, t, inputs),
{
}

/// Nothing is declared under the name.
pub open spec fn is_absent(s: StateV, name: Seq<char>) -> bool {
    &&& !s.types.contains_key(name)
    &&& !s.derived.contains_key(name)
    &&& !s.axes.contains_key(name)
    &&& !s.ttl.contains_key(name)
}

/// A lens that is not there is refused, whatever is asked of it, and so is a question without
/// an active database.
pub proof fn law_unknown_lens_is_refused(
    databases: Databases,
    active: Option<Seq<char>>,
    name: String,
    stmt: &Stmt,
    inputs: &Inputs,
    r: Result<Output, ExecError>,
)
    requires
        match *stmt {
            Stmt::At { name: n, .. } => n == name,
            Stmt::AtNd { name: n, .. } => n == name,
            Stmt::AtAsOf { name: n, .. } => n == name,
            Stmt::AtLayer { name: n, .. } => n == name,
            Stmt::HistoryLens { name: n, .. } => n == name,
            Stmt::Range { name: n, start, end, .. } => n == name && start < end,
            Stmt::RangeNd { name: n, start, end, .. } => n == name && start < end,
            Stmt::Reduce { name: n, start, end, .. } => n == name && start < end,
            _ => false,
        },
        answers(databases, active, stmt, inputs, r),
    ensures
        active is None ==> r is Err && r->Err_0@ == ExecErrorV::NoActiveDatabase,
        active matches Some(db) && databases.contains_key(db) && is_absent(databases[db], name@)
            ==> r is Err && r->Err_0@ == ExecErrorV::UnknownLens(name@),
{
}

} // verus!
