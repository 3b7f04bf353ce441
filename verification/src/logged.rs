//! What a database logs: all that its statements leave, so that it answers as before once it
//! is opened again.

use crate::ast::{Stmt, StmtV};
use crate::copy::{rows_of, rows_view, Row};
use crate::database::{
    law_append_is_durable, law_declaration_is_durable, law_drop_is_durable, lemma_agree_chain,
    logged_stack, recoverable, RecordV,
};
use crate::derived::{base_seen, lemma_lens_told, shown_alike, told};
use crate::error::ExecErrorV;
use crate::eval::materialised;
use crate::inputs::{file_text, Inputs};
use crate::layers::{agree, newest, Segment};
use crate::memory::stack_of;
use crate::model::Layer;
use crate::names::lists_keys;
use crate::query::{at_as_of_of, at_nd_of, at_of, range_answered};
use crate::recovery::{law_rebuilt_holds_the_log, rebuilt};
use crate::restart::{accounts, law_restart_restores_schema};
use crate::restore::lemma_base_answers_alike;
use crate::restored::{every_value, lemma_newest_value, lemma_rebuilt_values, zero_is};
use crate::state::{
    after_trial, boxes_written, checked_boxes, dependents_refreshed, filled, flat_rows, is_stirred,
    laid, laid_as, lens_changed, literal_rows, materialising, no_boxes_meet, note, recomputed,
    refreshed, row_boxes, rows_allowed, rows_tried, rows_written, schema_record, segments_type,
    turned, BoxLiteral, BoxV, DefV, Refresh, StateV, World,
};
use crate::value::Value;
use crate::windows::{answers_agree, at_sampler, shows, steady_lens};
use vstd::prelude::*;

verus! {

proof fn lemma_laid_logged(
    w: World,
    name: Seq<char>,
    boxes: Seq<BoxV>,
    now_ms: i64,
    r: Result<(), ExecErrorV>,
    after: World,
)
    requires
        recoverable(w.state.db),
        laid(w, name, boxes, now_ms, r, after),
    ensures
        recoverable(after.state.db),
{
    let layer = choose|layer: Layer<Value>| laid_as(w, name, boxes, now_ms, r, after, layer);
    law_append_is_durable(
        w.state.db,
        w.faults,
        name,
        layer,
        r is Ok,
        after.state.db,
        after.faults,
    );
}

proof fn lemma_noted_logged(w: World, text: Seq<char>)
    requires
        recoverable(w.state.db),
    ensures
        recoverable(note(w, RecordV::Schema(text)).1.state.db),
{
    let (ok, after) = note(w, RecordV::Schema(text));
    law_declaration_is_durable(w.state.db, w.faults, text, ok, after.state.db, after.faults);
}

proof fn lemma_refreshed_logged(
    w: World,
    left: Seq<String>,
    changed: Set<Seq<char>>,
    inputs: &Inputs,
    r: Result<(), ExecErrorV>,
    after: World,
)
    requires
        recoverable(w.state.db),
        refreshed(w, left, changed, inputs, r, after),
    ensures
        recoverable(after.state.db),
    decreases left.len(),
{
    let turn = choose|turn: Refresh| #[trigger]
        turned(w, left, changed, inputs, turn) && match turn.next {
            None => r is Ok && after == w,
            Some(i) => if !(0 <= i < left.len()) {
                false
            } else if !is_stirred(w.state, left, changed, i) {
                refreshed(w, left.remove(i), changed, inputs, r, after)
            } else if turn.result is Err {
                r == turn.result && after == turn.world
            } else {
                refreshed(
                    turn.world,
                    left.remove(i),
                    changed.insert(left[i]@),
                    inputs,
                    r,
                    after,
                )
            },
        };
    if let Some(i) = turn.next {
        if !is_stirred(w.state, left, changed, i) {
            lemma_refreshed_logged(w, left.remove(i), changed, inputs, r, after);
        } else {
            let def = w.state.stored[left[i]@];
            assert(recomputed(w, left[i]@, inputs, turn.result, turn.world));
            if let Ok(segs) = materialised(
                w.state.env(inputs),
                &def.expr,
                def.range,
                w.state.fuel(),
            ) {
                if segs.len() > 0 {
                    lemma_laid_logged(
                        w,
                        left[i]@,
                        row_boxes(segs),
                        inputs.now_ms,
                        turn.result,
                        turn.world,
                    );
                }
            }
            if turn.result is Ok {
                lemma_refreshed_logged(
                    turn.world,
                    left.remove(i),
                    changed.insert(left[i]@),
                    inputs,
                    r,
                    after,
                );
            }
        }
    }
}

proof fn lemma_rows_logged(
    w: World,
    name: Seq<char>,
    rows: Seq<Row>,
    inputs: &Inputs,
    r: Result<(), ExecErrorV>,
    after: World,
)
    requires
        recoverable(w.state.db),
        rows_written(w, name, rows, inputs, r, after),
    ensures
        recoverable(after.state.db),
{
    if rows.len() > 0 && rows_allowed(w.state, name, rows) is Ok {
        let tried = choose|tried: World| #[trigger]
            rows_tried(w, name, rows, inputs, r, tried) && after == after_trial(w, r, tried);
        let mid = choose|mid: Refresh| #[trigger]
            laid(w, name, row_boxes(rows), inputs.now_ms, mid.result, mid.world) && if mid.result
                is Err {
                r == mid.result && tried == mid.world
            } else {
                dependents_refreshed(mid.world, name, inputs, r, tried)
            };
        lemma_laid_logged(w, name, row_boxes(rows), inputs.now_ms, mid.result, mid.world);
        if mid.result is Ok {
            let names = choose|names: Seq<String>| #[trigger]
                lists_keys(names, mid.world.state.stored) && refreshed(
                    mid.world,
                    names,
                    set![name],
                    inputs,
                    r,
                    tried,
                );
            lemma_refreshed_logged(mid.world, names, set![name], inputs, r, tried);
        }
    }
}

proof fn lemma_boxes_logged(
    w: World,
    name: Seq<char>,
    taus: Seq<BoxLiteral>,
    inputs: &Inputs,
    r: Result<(), ExecErrorV>,
    after: World,
)
    requires
        recoverable(w.state.db),
        boxes_written(w, name, taus, inputs, r, after),
    ensures
        recoverable(after.state.db),
{
    let s = w.state;
    let arity = s.arity(name);
    if taus.len() == 0 {
    } else if arity == 1 {
        if let Ok(rows) = flat_rows(name, taus, &inputs.floats) {
            lemma_rows_logged(w, name, rows, inputs, r, after);
        }
    } else if !s.stored.contains_key(name) && s.types.contains_key(name) {
        if let Ok(boxes) = checked_boxes(name, arity, s.types[name], taus, &inputs.floats) {
            if no_boxes_meet(boxes) {
                lemma_laid_logged(w, name, boxes, inputs.now_ms, r, after);
            }
        }
    }
}

/// Every statement on lenses keeps the log telling of all that the layers hold, whether it
/// fails or not.
pub proof fn law_statements_stay_logged(
    live: World,
    stmt: &Stmt,
    inputs: &Inputs,
    r: Result<(), ExecErrorV>,
    after: World,
)
    requires
        recoverable(live.state.db),
        lens_changed(live, stmt, false, inputs, r, after),
    ensures
        recoverable(after.state.db),
{
    match *stmt {
        Stmt::Append { name, taus } => {
            if let Ok(rows) = literal_rows(taus@, &inputs.floats) {
                lemma_rows_logged(live, name@, rows, inputs, r, after);
            }
        },
        Stmt::BatchAppend { name, taus } => {
            if let Ok(rows) = literal_rows(taus@, &inputs.floats) {
                lemma_rows_logged(live, name@, rows, inputs, r, after);
            }
        },
        Stmt::AppendNd { name, taus } => {
            lemma_boxes_logged(live, name@, taus@, inputs, r, after);
        },
        Stmt::Copy { name, path } => {
            if let Ok(text) = file_text(inputs.files@, path@) {
                if let Ok(rows) = rows_of(text, 1, &inputs.floats) {
                    let read = choose|read: Seq<Row>|
                        rows_view(read) == rows && #[trigger] rows_written(
                            live,
                            name@,
                            read,
                            inputs,
                            r,
                            after,
                        );
                    lemma_rows_logged(live, name@, read, inputs, r, after);
                }
            }
        },
        Stmt::Xderive { name, expr, range } => {
            if after.state != live.state {
                let s = live.state;
                let segs = materialised(s.env(inputs), &expr, range, s.fuel())->Ok_0;
                let tried = choose|tried: World| #[trigger]
                    materialising(live, name@, &expr, range, segs, inputs, r, tried) && after
                        == after_trial(live, r, tried);
                let ty = segments_type(segs);
                let first = schema_record(StmtV::Create { name: name@, ty, axes: Seq::empty() });
                let second = schema_record(StmtV::Xderive { name: name@, expr: expr@, range });
                let one = note(live, first).1;
                lemma_noted_logged(live, first->Schema_0);
                lemma_noted_logged(one, second->Schema_0);
                if segs.len() > 0 && note(live, first).0 && note(one, second).0 {
                    let two = note(one, second).1;
                    let w = World {
                        state: StateV {
                            types: two.state.types.insert(name@, ty),
                            stored: two.state.stored.insert(
                                name@,
                                DefV { expr, range },
                            ),
                            ..two.state
                        },
                        ..two
                    };
                    assert(filled(w, name@, segs, inputs.now_ms, r, tried));
                    lemma_laid_logged(w, name@, row_boxes(segs), inputs.now_ms, r, tried);
                }
            }
        },
        Stmt::Drop { name } => {
            if after.state != live.state {
                let (ok, next) = note(live, RecordV::Drop(name@));
                law_drop_is_durable(
                    live.state.db,
                    live.faults,
                    name@,
                    ok,
                    next.state.db,
                    after.state.db,
                    next.faults,
                );
            }
        },
        Stmt::Create { .. } | Stmt::Derive { .. } | Stmt::SetTtl { .. } | Stmt::UnsetTtl { .. } => {
            lemma_noted_logged(live, schema_record(stmt@)->Schema_0);
        },
        _ => {},
    }
}

/// The layers that a log rebuilds say of every point what those of the database said whose
/// log it is.
pub proof fn law_restart_keeps_layers(
    s: StateV,
    compact_threshold: usize,
    inputs: &Inputs,
    back: StateV,
    lens: Seq<char>,
    ts: Seq<i64>,
    as_of: Option<i64>,
)
    requires
        s.db.log is Some,
        recoverable(s.db),
        rebuilt(s.db.log->Some_0, compact_threshold, inputs, back),
    ensures
        agree(
            newest(stack_of(s.db.stacks, lens), ts, as_of),
            newest(stack_of(back.db.stacks, lens), ts, as_of),
        ),
{
    let log = s.db.log->Some_0;
    law_rebuilt_holds_the_log(log, compact_threshold, inputs, back);
    let tells = newest(logged_stack(log, lens), ts, as_of);
    assert(agree(tells, newest(stack_of(s.db.stacks, lens), ts, as_of)));
    assert(agree(tells, newest(stack_of(back.db.stacks, lens), ts, as_of)));
    lemma_agree_chain(
        newest(stack_of(s.db.stacks, lens), ts, as_of),
        tells,
        newest(stack_of(back.db.stacks, lens), ts, as_of),
    );
}

/// A base lens, and a materialised lens is one, answers after a restart as it did before:
/// `AT LENS` with one coordinate or several, `AS OF` and `RANGE LENS`.
pub proof fn law_restart_answers_alike(
    s: StateV,
    compact_threshold: usize,
    inputs: &Inputs,
    back: StateV,
    name: Seq<char>,
    then: &Inputs,
)
    requires
        accounts(s),
        recoverable(s.db),
        rebuilt(s.db.log->Some_0, compact_threshold, inputs, back),
        s.types.contains_key(name),
    ensures
        forall|t: i64|
            answers_agree(#[trigger] at_of(s, name, t, then), at_of(back, name, t, then)),
        forall|ts: Seq<i64>, as_of: Option<i64>|
            answers_agree(#[trigger] at_nd_of(s, name, ts, as_of), at_nd_of(back, name, ts, as_of)),
        forall|t: i64, as_of: i64|
            answers_agree(
                #[trigger] at_as_of_of(s, name, t, as_of),
                at_as_of_of(back, name, t, as_of),
            ),
        forall|start: i64, end: i64, r: Result<Seq<Segment<Value>>, ExecErrorV>| #[trigger]
            range_answered(back, name, start, end, None, None, None, then, r) ==> match r {
                Ok(segs) => shows(segs, at_sampler(s, name, then), start, end),
                Err(e) => range_answered(s, name, start, end, None, None, None, then, r),
            },
{
    law_restart_restores_schema(s, compact_threshold, inputs, back);
    assert forall|ts: Seq<i64>, as_of: Option<i64>| agree(
        #[trigger] newest(stack_of(s.db.stacks, name), ts, as_of),
        newest(stack_of(back.db.stacks, name), ts, as_of),
    ) by {
        law_restart_keeps_layers(s, compact_threshold, inputs, back, name, ts, as_of);
    }
    lemma_base_answers_alike(s, back, name, then);
}

/// Neither the layers of a lens nor what the log tells of it hold both zeros, the positive and
/// the negative.
pub open spec fn one_zero_logged(s: StateV, lens: Seq<char>) -> bool {
    exists|z: u64|
        every_value(stack_of(s.db.stacks, lens), #[trigger] zero_is(z)) && every_value(
            logged_stack(s.db.log->Some_0, lens),
            zero_is(z),
        )
}

/// Any lens, a derived one too, answers `AT LENS` after a restart as it did before, where it
/// reads through no aggregate and no lens has held both zeros.
pub proof fn law_restarted_lens_answers(
    s: StateV,
    compact_threshold: usize,
    inputs: &Inputs,
    back: StateV,
    name: Seq<char>,
    t: i64,
    then: &Inputs,
)
    requires
        accounts(s),
        recoverable(s.db),
        rebuilt(s.db.log->Some_0, compact_threshold, inputs, back),
        steady_lens(s.env(then), name, s.fuel()),
        forall|lens: Seq<char>| #[trigger] one_zero_logged(s, lens),
    ensures
        told(at_of(back, name, t, then)) == told(at_of(s, name, t, then)),
{
    law_restart_restores_schema(s, compact_threshold, inputs, back);
    let (a, b) = (s.env(then), back.env(then));
    let log = s.db.log->Some_0;
    assert forall|lens: Seq<char>, u: i64| #[trigger] base_seen(a, lens, u) == base_seen(
        b,
        lens,
        u,
    ) by {
        assert(one_zero_logged(s, lens));
        let z = choose|z: u64|
            every_value(stack_of(s.db.stacks, lens), #[trigger] zero_is(z)) && every_value(
                logged_stack(s.db.log->Some_0, lens),
                zero_is(z),
            );
        let p = zero_is(z);
        lemma_rebuilt_values(log, compact_threshold, inputs, back, lens, p);
        lemma_newest_value(stack_of(s.db.stacks, lens), seq![u], None, p);
        lemma_newest_value(stack_of(back.db.stacks, lens), seq![u], None, p);
        law_restart_keeps_layers(s, compact_threshold, inputs, back, lens, seq![u], None);
    }
    assert(shown_alike(a, b));
    lemma_lens_told(a, b, name, t, s.fuel());
}

} // verus!
