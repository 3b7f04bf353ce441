//! What writes to a lens leave to be looked up.

use crate::ast::{Literal, Stmt};
use crate::copy::{rows_of, rows_view, Row};
use crate::database::{lemma_agree_chain, log_write, settled, with_write, RecordV};
use crate::duties::{lemma_literal_rows, rows_of_literals};
use crate::error::ExecErrorV;
use crate::eval::materialised;
use crate::inputs::{file_text, Inputs};
use crate::layers::{agree, newest};
use crate::lookups::outlived;
use crate::memory::{law_append_is_seen, stack_of};
use crate::model::{first_hit, lemma_hit_is_only, Bound, Layer, Tau};
use crate::names::{listed, lists_keys};
use crate::operators::named_by;
use crate::order::{linked, rearranged};
use crate::query::{at_as_of_of, at_nd_of, at_of};
use crate::restart::{equal_schema, lemma_rows_written};
use crate::state::{
    after_trial, box_of, checked_boxes, dependents_refreshed, flat_rows, is_stirred, laid, laid_as,
    lens_changed, literal_rows, no_boxes_meet, recomputed, refreshed, row_boxes, rows_allowed,
    rows_apart, rows_error, rows_tried, rows_written, turned, BoxLiteral, BoxV, Refresh, StateV,
    World,
};
use crate::value::{Type, Value};
use crate::views::lemma_refresh_leaves;
use crate::windows::answers_agree;
use vstd::prelude::*;

verus! {

/// The point lies in the box: in its interval on every axis.
pub open spec fn in_box(b: Seq<(i64, i64)>, ts: Seq<i64>) -> bool {
    b.len() == ts.len() && forall|d: int|
        0 <= d < ts.len() ==> (#[trigger] b[d]).0 <= ts[d] && ts[d] < b[d].1
}

/// A layer was written by a time, if one is given.
pub open spec fn by_then(written_at: i64, as_of: Option<i64>) -> bool {
    match as_of {
        Some(w) => written_at <= w,
        None => true,
    }
}

proof fn lemma_box_covers(tau: Tau<Value>, b: BoxV, ts: Seq<i64>)
    requires
        box_of(tau) == b,
    ensures
        in_box(b.0, ts) == tau.covers(ts),
        tau.value == b.1,
{
    let c = tau.coords@.map_values(|b: Bound| (b.lo, b.hi));
    assert(c == b.0);
    assert(c.len() == tau.coords@.len());
    assert forall|d: int| 0 <= d < c.len() implies #[trigger] c[d] == (
        tau.coords@[d].lo,
        tau.coords@[d].hi,
    ) by {}
    if tau.covers(ts) {
        assert forall|d: int| 0 <= d < ts.len() implies (#[trigger] b.0[d]).0 <= ts[d] && ts[d]
            < b.0[d].1 by {
            assert(tau.coords@[d].holds(ts[d]));
        }
    }
    if in_box(b.0, ts) {
        assert forall|d: int| 0 <= d < ts.len() implies (#[trigger] tau.coords@[d]).holds(
            ts[d],
        ) by {
            assert(b.0[d].0 <= ts[d]);
        }
    }
}

/// A layer of boxes says of a point what the box says that holds it.
proof fn lemma_layer_of_boxes(layer: Layer<Value>, boxes: Seq<BoxV>, ts: Seq<i64>)
    requires
        layer.wf(),
        exists|taus: Seq<Tau<Value>>| #[trigger]
            rearranged(taus, layer.taus@) && taus.map_values(|tau: Tau<Value>| box_of(tau))
                == boxes,
    ensures
        forall|i: int|
            0 <= i < boxes.len() && in_box((#[trigger] boxes[i]).0, ts) ==> layer.hit(ts) == Some(
                boxes[i].1,
            ),
        (forall|i: int| 0 <= i < boxes.len() ==> !in_box((#[trigger] boxes[i]).0, ts))
            ==> layer.hit(ts) is None,
{
    let taus = choose|taus: Seq<Tau<Value>>| #[trigger]
        rearranged(taus, layer.taus@) && taus.map_values(|tau: Tau<Value>| box_of(tau)) == boxes;
    let (from, to) = choose|from: Seq<int>, to: Seq<int>| linked(taus, layer.taus@, from, to);
    let mapped = taus.map_values(|tau: Tau<Value>| box_of(tau));
    assert forall|i: int|
        0 <= i < boxes.len() && in_box((#[trigger] boxes[i]).0, ts) implies layer.hit(ts) == Some(
        boxes[i].1,
    ) by {
        assert(mapped[i] == box_of(taus[i]));
        let p = to[i];
        assert(from[p] == i);
        assert(layer.taus@[p] == taus[i]);
        lemma_box_covers(taus[i], boxes[i], ts);
        lemma_hit_is_only(layer.taus@, ts, p);
    }
    if forall|i: int| 0 <= i < boxes.len() ==> !in_box((#[trigger] boxes[i]).0, ts) {
        assert forall|p: int| 0 <= p < layer.taus@.len() implies !(#[trigger] layer.taus@[p]).covers(
            ts,
        ) by {
            let i = from[p];
            assert(layer.taus@[p] == taus[i]);
            assert(mapped[i] == box_of(taus[i]));
            assert(!in_box(boxes[i].0, ts));
            lemma_box_covers(taus[i], boxes[i], ts);
        }
        lemma_no_cover(layer.taus@, ts);
    }
}

proof fn lemma_no_cover(taus: Seq<Tau<Value>>, ts: Seq<i64>)
    requires
        forall|p: int| 0 <= p < taus.len() ==> !(#[trigger] taus[p]).covers(ts),
    ensures
        first_hit(taus, ts) is None,
    decreases taus.len(),
{
    if taus.len() > 0 {
        let rest = taus.drop_first();
        assert forall|p: int| 0 <= p < rest.len() implies !(#[trigger] rest[p]).covers(ts) by {
            assert(rest[p] == taus[p + 1]);
        }
        lemma_no_cover(rest, ts);
        assert(!taus[0].covers(ts));
    }
}

/// What laying down boxes leaves to be looked up, at any point and as of any time.
pub proof fn lemma_laid_points(
    w: World,
    name: Seq<char>,
    boxes: Seq<BoxV>,
    now_ms: i64,
    r: Result<(), ExecErrorV>,
    after: World,
    ts: Seq<i64>,
    as_of: Option<i64>,
)
    requires
        laid(w, name, boxes, now_ms, r, after),
        r is Ok,
    ensures
        forall|i: int|
            0 <= i < boxes.len() && in_box((#[trigger] boxes[i]).0, ts) && by_then(now_ms, as_of)
                ==> agree(
                newest(stack_of(after.state.db.stacks, name), ts, as_of),
                Some(boxes[i].1),
            ),
        !by_then(now_ms, as_of) || (forall|i: int|
            0 <= i < boxes.len() ==> !in_box((#[trigger] boxes[i]).0, ts)) ==> agree(
            newest(stack_of(after.state.db.stacks, name), ts, as_of),
            newest(stack_of(w.state.db.stacks, name), ts, as_of),
        ),
        forall|m: Seq<char>|
            m != name ==> #[trigger] stack_of(after.state.db.stacks, m) == stack_of(
                w.state.db.stacks,
                m,
            ),
        equal_schema(w.state, after.state),
{
    let layer = choose|layer: Layer<Value>| laid_as(w, name, boxes, now_ms, r, after, layer);
    let before = stack_of(w.state.db.stacks, name);
    let top = stack_of(after.state.db.stacks, name);
    let (logged, left) = log_write(
        w.state.db,
        w.faults,
        RecordV::<Value>::Layer(name, layer),
    );
    assert(settled(with_write(logged->0), name, layer, after.state.db));
    lemma_layer_of_boxes(layer, boxes, ts);
    assert(before.push(layer).last() == layer);
    assert(before.push(layer).drop_last() =~= before);
    law_append_is_seen(before, layer, (logged->0).limits.of(name), top, ts, as_of);
}

/// Refreshing leaves what was known before as it was.
proof fn lemma_refreshed_past(
    w: World,
    left: Seq<String>,
    changed: Set<Seq<char>>,
    inputs: &Inputs,
    r: Result<(), ExecErrorV>,
    after: World,
    lens: Seq<char>,
    ts: Seq<i64>,
    as_of: i64,
)
    requires
        refreshed(w, left, changed, inputs, r, after),
        inputs.now_ms > as_of,
    ensures
        agree(
            newest(stack_of(after.state.db.stacks, lens), ts, Some(as_of)),
            newest(stack_of(w.state.db.stacks, lens), ts, Some(as_of)),
        ),
        equal_schema(w.state, after.state),
    decreases left.len(),
{
    let turn = choose|turn: Refresh| #[trigger]
        turned(w, left, changed, inputs, turn) && match turn.next {
            None => r is Ok && after == w,
            Some(i) => if !(0 <= i < left.len()) {
                false
            } else if !is_stirred(w.state, left, changed, i) {
                refreshed(w, left.remove(i), changed, inputs, r, after)
            } else if turn.result is Err {
                r == turn.result && after == turn.world
            } else {
                refreshed(
                    turn.world,
                    left.remove(i),
                    changed.insert(left[i]@),
                    inputs,
                    r,
                    after,
                )
            },
        };
    if let Some(i) = turn.next {
        if !is_stirred(w.state, left, changed, i) {
            lemma_refreshed_past(
                w,
                left.remove(i),
                changed,
                inputs,
                r,
                after,
                lens,
                ts,
                as_of,
            );
        } else {
            let def = w.state.stored[left[i]@];
            assert(recomputed(w, left[i]@, inputs, turn.result, turn.world));
            if let Ok(segs) = materialised(
                w.state.env(inputs),
                &def.expr,
                def.range,
                w.state.fuel(),
            ) {
                if segs.len() > 0 && turn.result is Ok {
                    lemma_laid_points(
                        w,
                        left[i]@,
                        row_boxes(segs),
                        inputs.now_ms,
                        turn.result,
                        turn.world,
                        ts,
                        Some(as_of),
                    );
                }
            }
            if turn.result is Ok {
                lemma_refreshed_past(
                    turn.world,
                    left.remove(i),
                    changed.insert(left[i]@),
                    inputs,
                    r,
                    after,
                    lens,
                    ts,
                    as_of,
                );
                lemma_agree_chain(
                    newest(stack_of(after.state.db.stacks, lens), ts, Some(as_of)),
                    newest(stack_of(turn.world.state.db.stacks, lens), ts, Some(as_of)),
                    newest(stack_of(w.state.db.stacks, lens), ts, Some(as_of)),
                );
            }
        }
    }
}

proof fn lemma_rows_past(
    w: World,
    name: Seq<char>,
    rows: Seq<Row>,
    inputs: &Inputs,
    r: Result<(), ExecErrorV>,
    after: World,
    lens: Seq<char>,
    ts: Seq<i64>,
    as_of: i64,
)
    requires
        rows_written(w, name, rows, inputs, r, after),
        inputs.now_ms > as_of,
    ensures
        agree(
            newest(stack_of(after.state.db.stacks, lens), ts, Some(as_of)),
            newest(stack_of(w.state.db.stacks, lens), ts, Some(as_of)),
        ),
        equal_schema(w.state, after.state),
{
    if rows.len() > 0 && rows_allowed(w.state, name, rows) is Ok {
        let tried = choose|tried: World| #[trigger]
            rows_tried(w, name, rows, inputs, r, tried) && after == after_trial(w, r, tried);
        let mid = choose|mid: Refresh| #[trigger]
            laid(w, name, row_boxes(rows), inputs.now_ms, mid.result, mid.world) && if mid.result
                is Err {
                r == mid.result && tried == mid.world
            } else {
                dependents_refreshed(mid.world, name, inputs, r, tried)
            };
        if mid.result is Ok {
            lemma_laid_points(
                w,
                name,
                row_boxes(rows),
                inputs.now_ms,
                mid.result,
                mid.world,
                ts,
                Some(as_of),
            );
            let names = choose|names: Seq<String>| #[trigger]
                lists_keys(names, mid.world.state.stored) && refreshed(
                    mid.world,
                    names,
                    set![name],
                    inputs,
                    r,
                    tried,
                );
            lemma_refreshed_past(mid.world, names, set![name], inputs, r, tried, lens, ts, as_of);
            lemma_agree_chain(
                newest(stack_of(tried.state.db.stacks, lens), ts, Some(as_of)),
                newest(stack_of(mid.world.state.db.stacks, lens), ts, Some(as_of)),
                newest(stack_of(w.state.db.stacks, lens), ts, Some(as_of)),
            );
        }
    }
}

/// Writing at a time changes nothing of what was known before that time, on any lens: every
/// `AS OF` an earlier time answers as it did.
pub proof fn law_writes_keep_the_past(
    w: World,
    stmt: &Stmt,
    inputs: &Inputs,
    r: Result<(), ExecErrorV>,
    after: World,
    lens: Seq<char>,
    t: i64,
    ts: Seq<i64>,
    as_of: i64,
)
    requires
        stmt is Append || stmt is BatchAppend || stmt is AppendNd || stmt is Copy,
        lens_changed(w, stmt, false, inputs, r, after),
        inputs.now_ms > as_of,
        w.state.types.contains_key(lens),
    ensures
        answers_agree(
            at_as_of_of(after.state, lens, t, as_of),
            at_as_of_of(w.state, lens, t, as_of),
        ),
        answers_agree(
            at_nd_of(after.state, lens, ts, Some(as_of)),
            at_nd_of(w.state, lens, ts, Some(as_of)),
        ),
{
    lemma_past(w, stmt, inputs, r, after, lens, seq![t], as_of);
    lemma_past(w, stmt, inputs, r, after, lens, ts, as_of);
}

proof fn lemma_past(
    w: World,
    stmt: &Stmt,
    inputs: &Inputs,
    r: Result<(), ExecErrorV>,
    after: World,
    lens: Seq<char>,
    ts: Seq<i64>,
    as_of: i64,
)
    requires
        stmt is Append || stmt is BatchAppend || stmt is AppendNd || stmt is Copy,
        lens_changed(w, stmt, false, inputs, r, after),
        inputs.now_ms > as_of,
    ensures
        agree(
            newest(stack_of(after.state.db.stacks, lens), ts, Some(as_of)),
            newest(stack_of(w.state.db.stacks, lens), ts, Some(as_of)),
        ),
        equal_schema(w.state, after.state),
{
    match *stmt {
        Stmt::Append { name, taus } => {
            if let Ok(rows) = literal_rows(taus@, &inputs.floats) {
                lemma_rows_past(w, name@, rows, inputs, r, after, lens, ts, as_of);
            }
        },
        Stmt::BatchAppend { name, taus } => {
            if let Ok(rows) = literal_rows(taus@, &inputs.floats) {
                lemma_rows_past(w, name@, rows, inputs, r, after, lens, ts, as_of);
            }
        },
        Stmt::AppendNd { name, taus } => {
            let s = w.state;
            let arity = s.arity(name@);
            if taus@.len() == 0 {
            } else if arity == 1 {
                if let Ok(rows) = flat_rows(name@, taus@, &inputs.floats) {
                    lemma_rows_past(w, name@, rows, inputs, r, after, lens, ts, as_of);
                }
            } else if !s.stored.contains_key(name@) && s.types.contains_key(name@) {
                if let Ok(boxes) = checked_boxes(
                    name@,
                    arity,
                    s.types[name@],
                    taus@,
                    &inputs.floats,
                ) {
                    if no_boxes_meet(boxes) && r is Ok {
                        lemma_laid_points(
                            w,
                            name@,
                            boxes,
                            inputs.now_ms,
                            r,
                            after,
                            ts,
                            Some(as_of),
                        );
                    }
                }
            }
        },
        Stmt::Copy { name, path } => {
            if let Ok(text) = file_text(inputs.files@, path@) {
                if let Ok(rows) = rows_of(text, 1, &inputs.floats) {
                    let read = choose|read: Seq<Row>|
                        rows_view(read) == rows && #[trigger] rows_written(
                            w,
                            name@,
                            read,
                            inputs,
                            r,
                            after,
                        );
                    lemma_rows_past(w, name@, read, inputs, r, after, lens, ts, as_of);
                }
            }
        },
        _ => {},
    }
}

/// The literal row holds the time.
pub open spec fn row_holds(taus: Seq<(i64, i64, Literal)>, i: int, t: i64) -> bool {
    0 <= i < taus.len() && taus[i].0 <= t < taus[i].1
}

proof fn lemma_rows_points(
    w: World,
    name: Seq<char>,
    rows: Seq<Row>,
    inputs: &Inputs,
    r: Result<(), ExecErrorV>,
    after: World,
    t: i64,
    as_of: Option<i64>,
)
    requires
        rows.len() > 0,
        rows_written(w, name, rows, inputs, r, after),
        r is Ok,
    ensures
        forall|i: int|
            0 <= i < rows.len() && (#[trigger] rows[i]).0 <= t < rows[i].1 && by_then(
                inputs.now_ms,
                as_of,
            ) ==> agree(
                newest(stack_of(after.state.db.stacks, name), seq![t], as_of),
                Some(rows[i].2),
            ),
        !by_then(inputs.now_ms, as_of) || (forall|i: int|
            0 <= i < rows.len() ==> !((#[trigger] rows[i]).0 <= t < rows[i].1)) ==> agree(
            newest(stack_of(after.state.db.stacks, name), seq![t], as_of),
            newest(stack_of(w.state.db.stacks, name), seq![t], as_of),
        ),
        equal_schema(w.state, after.state),
        rows_allowed(w.state, name, rows) is Ok,
{
    let tried = choose|tried: World| #[trigger]
        rows_tried(w, name, rows, inputs, r, tried) && after == after_trial(w, r, tried);
    let mid = choose|mid: Refresh| #[trigger]
        laid(w, name, row_boxes(rows), inputs.now_ms, mid.result, mid.world) && if mid.result
            is Err {
            r == mid.result && tried == mid.world
        } else {
            dependents_refreshed(mid.world, name, inputs, r, tried)
        };
    let boxes = row_boxes(rows);
    lemma_laid_points(
        w,
        name,
        boxes,
        inputs.now_ms,
        mid.result,
        mid.world,
        seq![t],
        as_of,
    );
    assert forall|i: int| 0 <= i < rows.len() implies (in_box((#[trigger] boxes[i]).0, seq![t])
        <==> rows[i].0 <= t < rows[i].1) && boxes[i].1 == rows[i].2 by {
        let b = boxes[i].0;
        assert(b =~= seq![(rows[i].0, rows[i].1)]);
        assert(b[0] == (rows[i].0, rows[i].1));
    }
    assert forall|i: int|
        0 <= i < rows.len() && (#[trigger] rows[i]).0 <= t < rows[i].1 && by_then(
            inputs.now_ms,
            as_of,
        ) implies agree(
        newest(stack_of(mid.world.state.db.stacks, name), seq![t], as_of),
        Some(rows[i].2),
    ) by {
        assert(in_box(boxes[i].0, seq![t]));
    }
    let s = mid.world.state;
    let names = choose|names: Seq<String>| #[trigger]
        lists_keys(names, s.stored) && refreshed(
            mid.world,
            names,
            set![name],
            inputs,
            r,
            tried,
        );
    assert(!listed(names, name)) by {
        assert(s.stored.contains_key(name) <==> listed(names, name));
    }
    lemma_refresh_leaves(mid.world, names, set![name], inputs, r, tried, name);
    lemma_rows_written(w, name, rows, inputs, r, after);
}

/// A lookup gives the value that a literal names, now and as of the time of writing. A time
/// before the time to live has no value.
pub open spec fn shows_literal(
    s: StateV,
    name: Seq<char>,
    l: Literal,
    t: i64,
    inputs: &Inputs,
) -> bool {
    exists|v: Value|
        {
            &&& #[trigger] named_by(&inputs.floats, l, v)
            &&& answers_agree(at_as_of_of(s, name, t, inputs.now_ms), Ok(Some(v)))
            &&& outlived(s.ttl, name, t, inputs.now_ms) ==> at_of(s, name, t, inputs) == Ok::<
                Option<Value>,
                ExecErrorV,
            >(None)
            &&& !outlived(s.ttl, name, t, inputs.now_ms) ==> answers_agree(
                at_of(s, name, t, inputs),
                Ok(Some(v)),
            )
        }
}

/// After an append, a lookup gives the value that was written wherever the time lies in one of
/// the rows, now and as of the time of writing, and what it gave before elsewhere. A time
/// before the time to live has no value.
pub proof fn law_append_is_looked_up(
    w: World,
    stmt: &Stmt,
    inputs: &Inputs,
    r: Result<(), ExecErrorV>,
    after: World,
    t: i64,
)
    requires
        stmt is Append || stmt is BatchAppend,
        lens_changed(w, stmt, false, inputs, r, after),
        r is Ok,
    ensures
        append_shows(w, target(stmt), literals(stmt), inputs, after, t),
{
    let (name, taus) = (target(stmt), literals(stmt));
    let rows = literal_rows(taus, &inputs.floats)->Ok_0;
    lemma_literal_rows(taus, inputs, rows);
    assert(rows_written(w, name, rows, inputs, r, after));
    if taus.len() > 0 {
        lemma_append_shows(w, name, taus, rows, inputs, r, after, t);
    }
}

/// The lens that an append writes to.
pub open spec fn target(stmt: &Stmt) -> Seq<char> {
    match *stmt {
        Stmt::Append { name, .. } => name@,
        Stmt::BatchAppend { name, .. } => name@,
        _ => Seq::empty(),
    }
}

/// The rows that an append writes, with their literals.
pub open spec fn literals(stmt: &Stmt) -> Seq<(i64, i64, Literal)> {
    match *stmt {
        Stmt::Append { taus, .. } => taus@,
        Stmt::BatchAppend { taus, .. } => taus@,
        _ => Seq::empty(),
    }
}

/// A lookup at a time gives what one of the rows says of it, and otherwise what it gave before.
pub open spec fn append_shows(
    w: World,
    name: Seq<char>,
    taus: Seq<(i64, i64, Literal)>,
    inputs: &Inputs,
    after: World,
    t: i64,
) -> bool {
    &&& forall|i: int|
        #![trigger row_holds(taus, i, t)]
        row_holds(taus, i, t) ==> shows_literal(after.state, name, taus[i].2, t, inputs)
    &&& (forall|i: int| !#[trigger] row_holds(taus, i, t)) && taus.len() > 0 ==> answers_agree(
        at_of(after.state, name, t, inputs),
        at_of(w.state, name, t, inputs),
    ) && answers_agree(
        at_as_of_of(after.state, name, t, inputs.now_ms),
        at_as_of_of(w.state, name, t, inputs.now_ms),
    )
    &&& taus.len() == 0 ==> after == w
}

proof fn lemma_append_shows(
    w: World,
    name: Seq<char>,
    taus: Seq<(i64, i64, Literal)>,
    rows: Seq<Row>,
    inputs: &Inputs,
    r: Result<(), ExecErrorV>,
    after: World,
    t: i64,
)
    requires
        taus.len() > 0,
        rows_of_literals(taus, &inputs.floats, rows),
        rows_written(w, name, rows, inputs, r, after),
        r is Ok,
    ensures
        append_shows(w, name, taus, inputs, after, t),
{
    lemma_rows_points(w, name, rows, inputs, r, after, t, None);
    lemma_rows_points(w, name, rows, inputs, r, after, t, Some(inputs.now_ms));
    let s = after.state;
    assert(s.types.contains_key(name) && !s.axes.contains_key(name));
    assert forall|i: int|
        #![trigger row_holds(taus, i, t)]
        row_holds(taus, i, t) implies shows_literal(
        after.state,
        name,
        taus[i].2,
        t,
        inputs,
    ) by {
        let v = rows[i].2;
        assert(named_by(&inputs.floats, taus[i].2, v));
        assert(rows[i].0 <= t < rows[i].1);
    }
    if forall|i: int| !#[trigger] row_holds(taus, i, t) {
        assert forall|i: int| 0 <= i < rows.len() implies !((#[trigger] rows[i]).0 <= t
            < rows[i].1) by {
            assert(!row_holds(taus, i, t));
        }
    }
}

/// The value fits a lens of the type: null fits every lens.
pub open spec fn fits(v: Value, ty: Type) -> bool {
    match v {
        Value::Null => true,
        Value::Bool(_) => ty is Bool,
        Value::Str(_) => ty is Str,
        Value::Float(_) => ty is Float,
        Value::Int(_) => ty is Int,
    }
}

/// The rows may be written to a lens: it is a base lens of one axis that no expression fills,
/// every interval starts before it ends and no two overlap, and every value fits.
pub open spec fn is_writable(s: StateV, name: Seq<char>, rows: Seq<Row>) -> bool {
    &&& s.types.contains_key(name)
    &&& !s.stored.contains_key(name)
    &&& !s.axes.contains_key(name)
    &&& forall|i: int|
        0 <= i < rows.len() ==> (#[trigger] rows[i]).0 < rows[i].1 && fits(
            rows[i].2,
            s.types[name],
        )
    &&& forall|i: int, j: int|
        #![trigger rows[i], rows[j]]
        0 <= i < j < rows.len() ==> rows[i].1 <= rows[j].0 || rows[j].1 <= rows[i].0
}

proof fn lemma_rows_error(lens: Seq<char>, ty: Type, rows: Seq<Row>)
    ensures
        rows_error(lens, ty, rows) is None <==> forall|i: int|
            0 <= i < rows.len() ==> (#[trigger] rows[i]).0 < rows[i].1 && fits(rows[i].2, ty),
        rows_error(lens, ty, rows) matches Some(e) ==> match e {
            ExecErrorV::InvalidRange => true,
            ExecErrorV::TypeMismatch { lens: l, expected, .. } => l == lens && expected == ty,
            _ => false,
        },
    decreases rows.len(),
{
    if rows.len() > 0 {
        let less = rows.drop_last();
        let n = rows.len() - 1;
        lemma_rows_error(lens, ty, less);
        if rows_error(lens, ty, rows) is None {
            assert forall|i: int| 0 <= i < rows.len() implies (#[trigger] rows[i]).0 < rows[i].1
                && fits(rows[i].2, ty) by {
                if i < n {
                    assert(less[i] == rows[i]);
                }
            }
        }
        if forall|i: int|
            0 <= i < rows.len() ==> (#[trigger] rows[i]).0 < rows[i].1 && fits(rows[i].2, ty) {
            assert forall|i: int| 0 <= i < less.len() implies (#[trigger] less[i]).0 < less[i].1
                && fits(less[i].2, ty) by {
                assert(less[i] == rows[i]);
            }
            assert(rows[n].0 < rows[n].1);
        }
    }
}

/// An append is refused exactly where its rows may not be written, and changes nothing then.
/// Otherwise only the log, or a lens that depends on it, can make it fail.
pub proof fn law_append_is_refused(
    w: World,
    name: Seq<char>,
    rows: Seq<Row>,
    inputs: &Inputs,
    r: Result<(), ExecErrorV>,
    after: World,
)
    requires
        rows.len() > 0,
        rows_written(w, name, rows, inputs, r, after),
    ensures
        !is_writable(w.state, name, rows) ==> r is Err && after == w && match r->Err_0 {
            ExecErrorV::MaterialisedLens(n) => n == name && w.state.stored.contains_key(name),
            ExecErrorV::UnknownLens(n) => n == name && !w.state.types.contains_key(name),
            ExecErrorV::InvalidExpr(_) => w.state.axes.contains_key(name),
            ExecErrorV::InvalidRange => true,
            ExecErrorV::TypeMismatch { lens, expected, .. } => lens == name && expected
                == w.state.types[name],
            _ => false,
        },
        is_writable(w.state, name, rows) && w.state.db.log is None
            && w.state.stored.dom().is_empty() ==> r is Ok,
{
    let s = w.state;
    if s.types.contains_key(name) {
        lemma_rows_error(name, s.types[name], rows);
    }
    assert(rows_apart(rows) <==> forall|i: int, j: int|
        #![trigger rows[i], rows[j]]
        0 <= i < j < rows.len() ==> rows[i].1 <= rows[j].0 || rows[j].1 <= rows[i].0) by {
        if rows_apart(rows) {
            assert forall|i: int, j: int|
                #![trigger rows[i], rows[j]]
                0 <= i < j < rows.len() implies rows[i].1 <= rows[j].0 || rows[j].1
                <= rows[i].0 by {}
        }
        if forall|i: int, j: int|
            #![trigger rows[i], rows[j]]
            0 <= i < j < rows.len() ==> rows[i].1 <= rows[j].0 || rows[j].1 <= rows[i].0 {
            assert forall|i: int, j: int|
                #![trigger rows[i], rows[j]]
                0 <= i < rows.len() && 0 <= j < rows.len() && i != j implies !(rows[i].0
                < rows[j].1 && rows[j].0 < rows[i].1) by {
                if i < j {
                    assert(rows[i].1 <= rows[j].0 || rows[j].1 <= rows[i].0);
                } else {
                    assert(rows[j].1 <= rows[i].0 || rows[i].1 <= rows[j].0);
                }
            }
        }
    }
    if is_writable(s, name, rows) && s.db.log is None && s.stored.dom().is_empty() {
        assert(rows_allowed(s, name, rows) is Ok);
        let tried = choose|tried: World| #[trigger]
            rows_tried(w, name, rows, inputs, r, tried) && after == after_trial(w, r, tried);
        let mid = choose|mid: Refresh| #[trigger]
            laid(w, name, row_boxes(rows), inputs.now_ms, mid.result, mid.world) && if mid.result
                is Err {
                r == mid.result && tried == mid.world
            } else {
                dependents_refreshed(mid.world, name, inputs, r, tried)
            };
        let layer = choose|layer: Layer<Value>|
            laid_as(
                w,
                name,
                row_boxes(rows),
                inputs.now_ms,
                mid.result,
                mid.world,
                layer,
            );
        assert(mid.result is Ok);
        let names = choose|names: Seq<String>| #[trigger]
            lists_keys(names, mid.world.state.stored) && refreshed(
                mid.world,
                names,
                set![name],
                inputs,
                r,
                tried,
            );
        if names.len() > 0 {
            assert(listed(names, names[0]@));
            assert(mid.world.state.stored.contains_key(names[0]@));
            assert(s.stored.dom().contains(names[0]@));
        }
        assert(names =~= Seq::empty());
    }
}

proof fn lemma_checked_boxes(
    name: Seq<char>,
    arity: nat,
    ty: Type,
    taus: Seq<BoxLiteral>,
    inputs: &Inputs,
    boxes: Seq<BoxV>,
)
    requires
        checked_boxes(name, arity, ty, taus, &inputs.floats) == Ok::<Seq<BoxV>, ExecErrorV>(boxes),
    ensures
        boxes.len() == taus.len(),
        forall|i: int|
            #![trigger boxes[i]]
            0 <= i < boxes.len() ==> boxes[i].0 == taus[i].0@ && named_by(
                &inputs.floats,
                taus[i].1,
                boxes[i].1,
            ) && fits(boxes[i].1, ty) && boxes[i].0.len() == arity,
    decreases taus.len(),
{
    if taus.len() > 0 {
        let less = checked_boxes(name, arity, ty, taus.drop_last(), &inputs.floats)->Ok_0;
        lemma_checked_boxes(name, arity, ty, taus.drop_last(), inputs, less);
    }
}

/// A lookup with one coordinate per axis gives the value that a literal names, now and as of
/// the time of writing.
pub open spec fn point_shows_literal(
    s: StateV,
    name: Seq<char>,
    l: Literal,
    ts: Seq<i64>,
    inputs: &Inputs,
) -> bool {
    exists|v: Value|
        {
            &&& #[trigger] named_by(&inputs.floats, l, v)
            &&& answers_agree(at_nd_of(s, name, ts, None), Ok(Some(v)))
            &&& answers_agree(at_nd_of(s, name, ts, Some(inputs.now_ms)), Ok(Some(v)))
        }
}

/// After an append of boxes to a lens of several axes, a lookup gives the value that was
/// written wherever the point lies in one of the boxes, and what it gave before elsewhere.
pub proof fn law_boxes_are_looked_up(
    w: World,
    name: String,
    taus: Vec<BoxLiteral>,
    inputs: &Inputs,
    r: Result<(), ExecErrorV>,
    after: World,
    ts: Seq<i64>,
)
    requires
        lens_changed(w, &Stmt::AppendNd { name, taus }, false, inputs, r, after),
        w.state.axes.contains_key(name@),
        w.state.axes[name@].len() > 1,
        ts.len() == w.state.axes[name@].len(),
        r is Ok,
        taus@.len() > 0,
    ensures
        forall|i: int|
            0 <= i < taus@.len() && in_box((#[trigger] taus@[i]).0@, ts) ==> point_shows_literal(
                after.state,
                name@,
                taus@[i].1,
                ts,
                inputs,
            ),
        (forall|i: int| 0 <= i < taus@.len() ==> !in_box((#[trigger] taus@[i]).0@, ts))
            ==> answers_agree(
            at_nd_of(after.state, name@, ts, None),
            at_nd_of(w.state, name@, ts, None),
        ),
{
    let s = w.state;
    let arity = s.arity(name@);
    let boxes = checked_boxes(name@, arity, s.types[name@], taus@, &inputs.floats)->Ok_0;
    lemma_checked_boxes(name@, arity, s.types[name@], taus@, inputs, boxes);
    lemma_laid_points(w, name@, boxes, inputs.now_ms, r, after, ts, None);
    lemma_laid_points(w, name@, boxes, inputs.now_ms, r, after, ts, Some(inputs.now_ms));
    assert forall|i: int|
        0 <= i < taus@.len() && in_box((#[trigger] taus@[i]).0@, ts) implies point_shows_literal(
        after.state,
        name@,
        taus@[i].1,
        ts,
        inputs,
    ) by {
        let v = boxes[i].1;
        assert(in_box(boxes[i].0, ts));
        assert(named_by(&inputs.floats, taus@[i].1, v));
    }
    if forall|i: int| 0 <= i < taus@.len() ==> !in_box((#[trigger] taus@[i]).0@, ts) {
        assert forall|i: int| 0 <= i < boxes.len() implies !in_box((#[trigger] boxes[i]).0, ts) by {
            assert(!in_box(taus@[i].0@, ts));
        }
    }
}

/// On a lens of one axis, an append with one bracketed interval per value is the append of the
/// same rows.
pub proof fn law_one_axis_box_is_a_row(
    w: World,
    name: String,
    boxed: Vec<BoxLiteral>,
    plain: Vec<(i64, i64, Literal)>,
    inputs: &Inputs,
    r: Result<(), ExecErrorV>,
    after: World,
)
    requires
        !w.state.axes.contains_key(name@),
        boxed@.len() == plain@.len(),
        forall|i: int|
            #![trigger boxed@[i]]
            0 <= i < boxed@.len() ==> boxed@[i].0@ == seq![(plain@[i].0, plain@[i].1)]
                && boxed@[i].1 == plain@[i].2,
    ensures
        lens_changed(w, &Stmt::AppendNd { name, taus: boxed }, false, inputs, r, after)
            <==> lens_changed(w, &Stmt::Append { name, taus: plain }, false, inputs, r, after),
{
    lemma_flat_is_plain(name@, boxed@, plain@, inputs);
}

proof fn lemma_flat_is_plain(
    name: Seq<char>,
    boxed: Seq<BoxLiteral>,
    plain: Seq<(i64, i64, Literal)>,
    inputs: &Inputs,
)
    requires
        boxed.len() == plain.len(),
        forall|i: int|
            #![trigger boxed[i]]
            0 <= i < boxed.len() ==> boxed[i].0@ == seq![(plain[i].0, plain[i].1)] && boxed[i].1
                == plain[i].2,
    ensures
        flat_rows(name, boxed, &inputs.floats) == literal_rows(plain, &inputs.floats),
    decreases boxed.len(),
{
    if boxed.len() > 0 {
        let (a, b) = (boxed.drop_last(), plain.drop_last());
        assert forall|i: int|
            #![trigger a[i]]
            0 <= i < a.len() implies a[i].0@ == seq![(b[i].0, b[i].1)] && a[i].1 == b[i].2 by {
            assert(a[i] == boxed[i] && b[i] == plain[i]);
        }
        lemma_flat_is_plain(name, a, b, inputs);
        let n = boxed.len() - 1;
        assert(boxed[n].0@ == seq![(plain[n].0, plain[n].1)]);
        assert(boxed[n].0@[0] == (plain[n].0, plain[n].1));
    }
}

} // verus!
