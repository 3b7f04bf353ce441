//! What the lenses of a database restored from a backup answer.

use crate::ast::{AggFunc, Expr, Stmt};
use crate::database::{is_max_layer_id, logged_stack, RecordV};
use crate::derived::{
    base_seen, lemma_agg_told, lemma_lens_told, lemma_range_told, lemma_steady_alike,
    same_segments, same_stacks, same_windows, shown_alike, told,
};
use crate::error::ExecErrorV;
use crate::eval::range_of;
use crate::extremes::{lemma_compacted_wf, lemma_reduce_alike, numbers_of_a_kind};
use crate::inputs::Inputs;
use crate::layers::{
    agree, compacted, generation_start, lemma_generation_start_range, merged, newest, probe,
    segments_of, stack_empty, stack_one_axis, stack_wf, Segment,
};
use crate::memory::stack_of;
use crate::model::{first_hit, Datum, Layer, Tau, Timestamp};
use crate::parser::statement;
use crate::query::{at_of, range_allowed, range_answered, reduce_of, window_of};
use crate::recovery::{
    backs_up, empty_state, is_declaration, law_backup_holds_everything, law_restore_keeps_layers,
    lemma_declaration_keeps_layers, rebuilt, record_replayed, replayed,
};
use crate::restart::same_schema;
use crate::restore::{is_plain_state, law_restore_restores_schema, tidy};
use crate::state::{lens_changed, next_number, StateV, World};
use crate::value::{float_key, Value};
use crate::windows::{
    answers_agree, at_sampler, env_wf, in_segment, law_range_agrees_with_at, shows, steady_lens,
};
use vstd::prelude::*;

verus! {

/// Every value that the layers hold meets the condition.
pub open spec fn every_value<V>(stack: Seq<Layer<V>>, p: spec_fn(V) -> bool) -> bool {
    forall|l: int, k: int|
        #![trigger stack[l].taus@[k]]
        0 <= l < stack.len() && 0 <= k < stack[l].taus@.len() ==> p(stack[l].taus@[k].value)
}

proof fn lemma_hit_value<V>(taus: Seq<Tau<V>>, ts: Seq<Timestamp>, p: spec_fn(V) -> bool)
    requires
        forall|k: int| 0 <= k < taus.len() ==> p((#[trigger] taus[k]).value),
    ensures
        first_hit(taus, ts) matches Some(v) ==> p(v),
    decreases taus.len(),
{
    if taus.len() > 0 {
        let rest = taus.drop_first();
        assert forall|k: int| 0 <= k < rest.len() implies p((#[trigger] rest[k]).value) by {
            assert(rest[k] == taus[k + 1]);
        }
        lemma_hit_value(rest, ts, p);
        assert(p(taus[0].value));
    }
}

pub proof fn lemma_newest_value<V>(
    stack: Seq<Layer<V>>,
    ts: Seq<Timestamp>,
    as_of: Option<i64>,
    p: spec_fn(V) -> bool,
)
    requires
        every_value(stack, p),
    ensures
        newest(stack, ts, as_of) matches Some(v) ==> p(v),
    decreases stack.len(),
{
    if stack.len() > 0 {
        let n = stack.len() - 1;
        let less = stack.drop_last();
        assert forall|l: int, k: int|
            #![trigger less[l].taus@[k]]
            0 <= l < less.len() && 0 <= k < less[l].taus@.len() implies p(
            less[l].taus@[k].value,
        ) by {
            assert(p(stack[l].taus@[k].value));
        }
        lemma_newest_value(less, ts, as_of, p);
        let taus = stack[n].taus@;
        assert forall|k: int| 0 <= k < taus.len() implies p((#[trigger] taus[k]).value) by {
            assert(p(stack[n].taus@[k].value));
        }
        lemma_hit_value(taus, ts, p);
    }
}

/// Compaction brings in no value.
proof fn lemma_compacted_values<V: Datum>(
    before: Seq<Layer<V>>,
    after: Seq<Layer<V>>,
    p: spec_fn(V) -> bool,
)
    requires
        compacted(before, after),
        every_value(before, p),
    ensures
        every_value(after, p),
    decreases before.len(),
{
    if before.len() > 0 {
        lemma_generation_start_range(before);
        let s = generation_start(before);
        let group = before.skip(s);
        let head = before.take(s);
        assert forall|l: int, k: int|
            #![trigger head[l].taus@[k]]
            0 <= l < head.len() && 0 <= k < head[l].taus@.len() implies p(
            head[l].taus@[k].value,
        ) by {
            assert(p(before[l].taus@[k].value));
        }
        assert forall|l: int, k: int|
            #![trigger group[l].taus@[k]]
            0 <= l < group.len() && 0 <= k < group[l].taus@.len() implies p(
            group[l].taus@[k].value,
        ) by {
            assert(p(before[s + l].taus@[k].value));
        }
        if !stack_one_axis(group) {
            let m = after.len() - group.len();
            lemma_compacted_values(head, after.take(m), p);
            assert forall|l: int, k: int|
                #![trigger after[l].taus@[k]]
                0 <= l < after.len() && 0 <= k < after[l].taus@.len() implies p(
                after[l].taus@[k].value,
            ) by {
                if l < m {
                    assert(p(after.take(m)[l].taus@[k].value));
                } else {
                    assert(after.skip(m)[l - m] == after[l]);
                    assert(p(group[l - m].taus@[k].value));
                }
            }
        } else if stack_empty(group) {
            lemma_compacted_values(head, after, p);
        } else {
            let n = after.len() - 1;
            lemma_compacted_values(head, after.drop_last(), p);
            assert forall|l: int, k: int|
                #![trigger after[l].taus@[k]]
                0 <= l < after.len() && 0 <= k < after[l].taus@.len() implies p(
                after[l].taus@[k].value,
            ) by {
                if l < n {
                    assert(p(after.drop_last()[l].taus@[k].value));
                } else {
                    let segs = segments_of(after[n].taus@);
                    let f = probe(group, Seq::empty(), None);
                    assert(merged(group, after[n]));
                    assert(f(segs[k].0) == Some(segs[k].2));
                    lemma_newest_value(group, seq![segs[k].0] + Seq::empty(), None, p);
                }
            }
        }
    }
}

/// What a log rebuilds of a stack: nothing but values that the log tells, in
/// layers that are well formed, and just what the log tells where it is not too tall.
proof fn lemma_replayed_stack(
    log: Seq<RecordV<Value>>,
    ws: Seq<World>,
    compact_threshold: usize,
    inputs: &Inputs,
    lens: Seq<char>,
    p: spec_fn(Value) -> bool,
    k: int,
)
    requires
        replayed(log, ws, inputs),
        ws[0].state == empty_state(compact_threshold),
        0 <= k <= log.len(),
    ensures
        ws[k].state.db.limits == empty_state(compact_threshold).db.limits,
        every_value(logged_stack(log.take(k), lens), p) ==> every_value(
            stack_of(ws[k].state.db.stacks, lens),
            p,
        ),
        stack_wf(logged_stack(log.take(k), lens)) ==> stack_wf(
            stack_of(ws[k].state.db.stacks, lens),
        ),
        compact_threshold == 0 || logged_stack(log.take(k), lens).len() <= compact_threshold
            ==> stack_of(ws[k].state.db.stacks, lens) == logged_stack(log.take(k), lens),
    decreases k,
{
    if k == 0 {
        assert(log.take(0) =~= Seq::empty());
    } else {
        let i = k - 1;
        lemma_replayed_stack(log, ws, compact_threshold, inputs, lens, p, i);
        let (w, after) = (ws[i], ws[k]);
        assert(record_replayed(w, log[i], inputs, after));
        let (less, more) = (log.take(i), log.take(k));
        assert(more.drop_last() =~= less);
        assert(more.last() == log[i]);
        let (was, is) = (logged_stack(less, lens), logged_stack(more, lens));
        let (old_stack, new_stack) = (
            stack_of(w.state.db.stacks, lens),
            stack_of(after.state.db.stacks, lens),
        );
        match log[i] {
            RecordV::Schema(text) => {
                if let Some((v, _)) = statement(text) {
                    if is_declaration(v) {
                        let (stmt, r) = choose|stmt: Stmt, r: Result<(), ExecErrorV>| #[trigger]
                            lens_changed(w, &stmt, true, inputs, r, after) && stmt@ == v;
                        lemma_declaration_keeps_layers(w, &stmt, inputs, r, after);
                    }
                }
            },
            RecordV::Layer(name, layer) => {
                if name == lens {
                    let grown_stack = old_stack.push(layer);
                    assert(is == was.push(layer));
                    if every_value(is, p) {
                        assert forall|l: int, j: int|
                            #![trigger was[l].taus@[j]]
                            0 <= l < was.len() && 0 <= j < was[l].taus@.len() implies p(
                            was[l].taus@[j].value,
                        ) by {
                            assert(is[l] == was[l]);
                            assert(p(is[l].taus@[j].value));
                        }
                        assert forall|l: int, j: int|
                            #![trigger grown_stack[l].taus@[j]]
                            0 <= l < grown_stack.len() && 0 <= j
                                < grown_stack[l].taus@.len() implies p(
                            grown_stack[l].taus@[j].value,
                        ) by {
                            if l < old_stack.len() {
                                assert(p(old_stack[l].taus@[j].value));
                            } else {
                                assert(is[was.len() as int] == layer);
                                assert(p(is[was.len() as int].taus@[j].value));
                            }
                        }
                        if new_stack != grown_stack {
                            lemma_compacted_values(grown_stack, new_stack, p);
                        }
                    }
                    if stack_wf(is) {
                        assert forall|l: int| 0 <= l < was.len() implies (#[trigger] was[l]).wf() by {
                            assert(is[l].wf());
                        }
                        assert(is[was.len() as int].wf());
                        assert(stack_wf(grown_stack));
                        if new_stack != grown_stack {
                            lemma_compacted_wf(grown_stack, new_stack);
                        }
                    }
                }
            },
            RecordV::Drop(_) => {
                assert(after.state.db.limits.own =~= Map::empty());
            },
        }
    }
}

/// What a log rebuilds of a stack.
pub proof fn lemma_rebuilt_values(
    log: Seq<RecordV<Value>>,
    compact_threshold: usize,
    inputs: &Inputs,
    back: StateV,
    lens: Seq<char>,
    p: spec_fn(Value) -> bool,
)
    requires
        rebuilt(log, compact_threshold, inputs, back),
    ensures
        every_value(logged_stack(log, lens), p) ==> every_value(stack_of(back.db.stacks, lens), p),
        stack_wf(logged_stack(log, lens)) ==> stack_wf(stack_of(back.db.stacks, lens)),
        compact_threshold == 0 || logged_stack(log, lens).len() <= compact_threshold ==> stack_of(
            back.db.stacks,
            lens,
        ) == logged_stack(log, lens),
{
    let ws = choose|ws: Seq<World>| #[trigger]
        replayed(log, ws, inputs) && ws[0].state == empty_state(compact_threshold) && back
            == (StateV { next_id: back.next_id, ..ws.last().state }) && exists|id: u64| #[trigger]
            is_max_layer_id(back.db.stacks, id) && back.next_id == next_number(id);
    lemma_replayed_stack(log, ws, compact_threshold, inputs, lens, p, log.len() as int);
    assert(log.take(log.len() as int) =~= log);
}

/// What restoring a backup makes of a stack.
proof fn lemma_restored_stack(
    s: StateV,
    log: Seq<RecordV<Value>>,
    compact_threshold: usize,
    inputs: &Inputs,
    back: StateV,
    lens: Seq<char>,
    p: spec_fn(Value) -> bool,
)
    requires
        backs_up(s, log),
        rebuilt(log, compact_threshold, inputs, back),
    ensures
        every_value(stack_of(s.db.stacks, lens), p) ==> every_value(
            stack_of(back.db.stacks, lens),
            p,
        ),
        stack_wf(stack_of(s.db.stacks, lens)) ==> stack_wf(stack_of(back.db.stacks, lens)),
        compact_threshold == 0 || stack_of(s.db.stacks, lens).len() <= compact_threshold
            ==> stack_of(back.db.stacks, lens) == stack_of(s.db.stacks, lens),
{
    lemma_rebuilt_values(log, compact_threshold, inputs, back, lens, p);
    law_backup_holds_everything(s, log);
    assert(logged_stack(log, lens) == stack_of(s.db.stacks, lens));
}

/// A backup of well-formed layers is restored to well-formed layers.
pub proof fn law_restore_is_well_formed(
    s: StateV,
    log: Seq<RecordV<Value>>,
    compact_threshold: usize,
    inputs: &Inputs,
    back: StateV,
    then: &Inputs,
)
    requires
        backs_up(s, log),
        rebuilt(log, compact_threshold, inputs, back),
        env_wf(s.env(then)),
    ensures
        env_wf(back.env(then)),
{
    assert forall|lens: Seq<char>| #[trigger] stack_wf(
        stack_of(back.env(then).stacks, lens),
    ) by {
        assert(stack_wf(stack_of(s.env(then).stacks, lens)));
        lemma_restored_stack(s, log, compact_threshold, inputs, back, lens, |v: Value| true);
    }
}

/// A float that is zero has this sign.
pub open spec fn zero_is(z: u64) -> spec_fn(Value) -> bool {
    |v: Value|
        match v {
            Value::Float(bits) => float_key(bits) == 0 ==> bits == z,
            _ => true,
        }
}

/// The layers do not hold both zeros, the positive and the negative.
pub open spec fn one_zero(stack: Seq<Layer<Value>>) -> bool {
    exists|z: u64| every_value(stack, #[trigger] zero_is(z))
}

/// No stack is so tall that restoring it would merge layers.
pub open spec fn merges_nothing(s: StateV, compact_threshold: usize) -> bool {
    compact_threshold == 0 || forall|lens: Seq<char>|
        (#[trigger] stack_of(s.db.stacks, lens)).len() <= compact_threshold
}

proof fn lemma_restored_env(
    s: StateV,
    log: Seq<RecordV<Value>>,
    compact_threshold: usize,
    inputs: &Inputs,
    back: StateV,
    then: &Inputs,
)
    requires
        tidy(s),
        is_plain_state(s),
        backs_up(s, log),
        rebuilt(log, compact_threshold, inputs, back),
        merges_nothing(s, compact_threshold) || forall|lens: Seq<char>| #[trigger]
            one_zero(stack_of(s.db.stacks, lens)),
    ensures
        same_schema(s, back),
        s.fuel() == back.fuel(),
        shown_alike(s.env(then), back.env(then)),
        merges_nothing(s, compact_threshold) ==> same_stacks(s.env(then), back.env(then)),
{
    law_restore_restores_schema(s, log, compact_threshold, inputs, back);
    let (a, b) = (s.env(then), back.env(then));
    assert forall|lens: Seq<char>, t: i64| #[trigger] base_seen(a, lens, t) == base_seen(
        b,
        lens,
        t,
    ) by {
        if merges_nothing(s, compact_threshold) {
            assert(compact_threshold == 0 || stack_of(s.db.stacks, lens).len()
                <= compact_threshold);
            lemma_restored_stack(s, log, compact_threshold, inputs, back, lens, |v: Value| true);
        } else {
            assert(one_zero(stack_of(s.db.stacks, lens)));
            let z = choose|z: u64| every_value(stack_of(s.db.stacks, lens), #[trigger] zero_is(z));
            let p = zero_is(z);
            lemma_restored_stack(s, log, compact_threshold, inputs, back, lens, p);
            lemma_newest_value(stack_of(s.db.stacks, lens), seq![t], None, p);
            lemma_newest_value(stack_of(back.db.stacks, lens), seq![t], None, p);
            law_restore_keeps_layers(
                s,
                log,
                compact_threshold,
                inputs,
                back,
                lens,
                seq![t],
                None,
            );
        }
    }
    if merges_nothing(s, compact_threshold) {
        assert forall|lens: Seq<char>| #[trigger] stack_of(a.stacks, lens) == stack_of(
            b.stacks,
            lens,
        ) by {
            assert(compact_threshold == 0 || stack_of(s.db.stacks, lens).len()
                <= compact_threshold);
            lemma_restored_stack(s, log, compact_threshold, inputs, back, lens, |v: Value| true);
        }
    }
}

/// Any lens of a restored database, a derived one too, answers `AT LENS` as it did in the
/// database that was backed up: always where no stack is so tall that restoring merges its
/// layers, and otherwise where the lens reads through no aggregate and no stack holds both
/// zeros.
pub proof fn law_restored_lens_answers(
    s: StateV,
    log: Seq<RecordV<Value>>,
    compact_threshold: usize,
    inputs: &Inputs,
    back: StateV,
    name: Seq<char>,
    t: i64,
    then: &Inputs,
)
    requires
        tidy(s),
        is_plain_state(s),
        backs_up(s, log),
        rebuilt(log, compact_threshold, inputs, back),
        merges_nothing(s, compact_threshold) || steady_lens(s.env(then), name, s.fuel()) && forall|
            lens: Seq<char>,
        | #[trigger]
            one_zero(stack_of(s.db.stacks, lens)),
    ensures
        told(at_of(back, name, t, then)) == told(at_of(s, name, t, then)),
{
    lemma_restored_env(s, log, compact_threshold, inputs, back, then);
    lemma_lens_told(s.env(then), back.env(then), name, t, s.fuel());
}

/// `RANGE LENS` on any lens of a restored database shows what `AT LENS` said of each time in
/// the database that was backed up, where the lens reads through no aggregate and no stack
/// holds both zeros.
pub proof fn law_restored_range_agrees_with_at(
    s: StateV,
    log: Seq<RecordV<Value>>,
    compact_threshold: usize,
    inputs: &Inputs,
    back: StateV,
    name: Seq<char>,
    start: i64,
    end: i64,
    then: &Inputs,
    segs: Seq<Segment<Value>>,
)
    requires
        tidy(s),
        is_plain_state(s),
        env_wf(s.env(then)),
        backs_up(s, log),
        rebuilt(log, compact_threshold, inputs, back),
        steady_lens(s.env(then), name, s.fuel()),
        forall|lens: Seq<char>| #[trigger] one_zero(stack_of(s.db.stacks, lens)),
        range_answered(back, name, start, end, None, None, None, then, Ok(segs)),
    ensures
        shows(segs, at_sampler(s, name, then), start, end),
{
    lemma_restored_env(s, log, compact_threshold, inputs, back, then);
    law_restore_is_well_formed(s, log, compact_threshold, inputs, back, then);
    lemma_steady_alike(s.env(then), back.env(then), name, s.fuel());
    law_range_agrees_with_at(back, name, start, end, then, segs);
    let (f, g) = (at_sampler(s, name, then), at_sampler(back, name, then));
    assert forall|t: i64| start <= t < end implies (#[trigger] f(t)) is Ok && match f(t)->Ok_0 {
        Some(v) => exists|i: int| #[trigger]
            in_segment(segs, i, t) && agree(Some(segs[i].2), Some(v)),
        None => forall|i: int| !#[trigger] in_segment(segs, i, t),
    } by {
        law_restored_lens_answers(s, log, compact_threshold, inputs, back, name, t, then);
        assert(g(t) is Ok);
        if let Some(v) = f(t)->Ok_0 {
            let u = g(t)->Ok_0->0;
            let i = choose|i: int| #[trigger]
                in_segment(segs, i, t) && agree(Some(segs[i].2), Some(u));
            assert(u@ == v@);
            assert(agree(Some(segs[i].2), Some(v)));
        }
    }
}

/// A window of segments that are the same.
proof fn lemma_same_window(
    a: Seq<Segment<Value>>,
    b: Seq<Segment<Value>>,
    offset: Option<u64>,
    limit: Option<u64>,
)
    requires
        same_segments(a, b),
    ensures
        same_segments(window_of(a, offset, limit), window_of(b, offset, limit)),
{
    let (x, y) = (window_of(a, offset, limit), window_of(b, offset, limit));
    let from: int = match offset {
        Some(n) => if n <= a.len() {
            n as int
        } else {
            a.len() as int
        },
        None => 0,
    };
    assert forall|i: int|
        #![trigger x[i]]
        #![trigger y[i]]
        0 <= i < x.len() implies x[i].0 == y[i].0 && x[i].1 == y[i].1 && x[i].2@ == y[i].2@ by {
        assert(a[from + i].0 == b[from + i].0);
        assert(x[i] == a[from + i] && y[i] == b[from + i]);
    }
}

/// Where no stack is so tall that restoring merges its layers, `RANGE LENS` and `REDUCE LENS`
/// on any lens of the restored database, a derived one too, answer as they did in the
/// database that was backed up.
pub proof fn law_restored_windows_answer(
    s: StateV,
    log: Seq<RecordV<Value>>,
    compact_threshold: usize,
    inputs: &Inputs,
    back: StateV,
    name: Seq<char>,
    start: i64,
    end: i64,
    then: &Inputs,
)
    requires
        tidy(s),
        is_plain_state(s),
        backs_up(s, log),
        rebuilt(log, compact_threshold, inputs, back),
        merges_nothing(s, compact_threshold),
    ensures
        forall|func: AggFunc|
            told(#[trigger] reduce_of(back, name, start, end, func, then)) == told(
                reduce_of(s, name, start, end, func, then),
            ),
        forall|
            filter: Option<&Expr>,
            limit: Option<u64>,
            offset: Option<u64>,
            r: Result<Seq<Segment<Value>>, ExecErrorV>,
        | #[trigger]
            range_answered(back, name, start, end, filter, limit, offset, then, r) ==> exists|
                q: Result<Seq<Segment<Value>>, ExecErrorV>,
            | #[trigger]
                range_answered(s, name, start, end, filter, limit, offset, then, q)
                    && same_windows(q, r),
{
    lemma_restored_env(s, log, compact_threshold, inputs, back, then);
    let (a, b) = (s.env(then), back.env(then));
    let from = s.window_start(name, start, then);
    assert(from == back.window_start(name, start, then));
    assert(s.has_lens(name) == back.has_lens(name)) by {
        assert(s.derived.dom().contains(name) == back.derived.dom().contains(name));
    }
    assert forall|func: AggFunc| told(
        #[trigger] reduce_of(back, name, start, end, func, then),
    ) == told(reduce_of(s, name, start, end, func, then)) by {
        if from < end {
            lemma_agg_told(a, b, name, func, from, end, s.fuel());
        }
    }
    assert forall|
        filter: Option<&Expr>,
        limit: Option<u64>,
        offset: Option<u64>,
        r: Result<Seq<Segment<Value>>, ExecErrorV>,
    | #[trigger]
        range_answered(
            back,
            name,
            start,
            end,
            filter,
            limit,
            offset,
            then,
            r,
        ) implies exists|q: Result<Seq<Segment<Value>>, ExecErrorV>| #[trigger]
        range_answered(s, name, start, end, filter, limit, offset, then, q) && same_windows(q, r) by {
        if from < end && !(filter is None && s.types.contains_key(name)) {
            lemma_range_told(a, b, name, from, end, filter, s.fuel());
            let q = match range_of(a, name, from, end, filter, s.fuel()) {
                Ok(segs) => Ok(window_of(segs, offset, limit)),
                Err(e) => Err(e),
            };
            if let (Ok(x), Ok(y)) = (
                range_of(a, name, from, end, filter, s.fuel()),
                range_of(b, name, from, end, filter, s.fuel()),
            ) {
                lemma_same_window(x, y, offset, limit);
            }
            if range_allowed(s, name, start, end, "RANGE"@) is Ok {
                assert(range_answered(s, name, start, end, filter, limit, offset, then, q));
            } else {
                assert(range_answered(s, name, start, end, filter, limit, offset, then, r));
            }
        } else {
            assert(stack_of(s.db.stacks, name) == stack_of(a.stacks, name));
            assert(stack_of(back.db.stacks, name) == stack_of(b.stacks, name));
            assert(range_answered(s, name, start, end, filter, limit, offset, then, r));
            assert(same_windows(r, r));
        }
    }
}

/// `REDUCE LENS` with `MIN` or `MAX` on a base lens, a materialised one too, of a restored
/// database answers as it did in the database that was backed up, up to values that count as
/// equal, where all that the lens shows in the window is integers or all is floats.
pub proof fn law_restored_extremes(
    s: StateV,
    log: Seq<RecordV<Value>>,
    compact_threshold: usize,
    inputs: &Inputs,
    back: StateV,
    name: Seq<char>,
    start: i64,
    end: i64,
    func: AggFunc,
    then: &Inputs,
)
    requires
        tidy(s),
        is_plain_state(s),
        env_wf(s.env(then)),
        backs_up(s, log),
        rebuilt(log, compact_threshold, inputs, back),
        s.types.contains_key(name),
        func is Min || func is Max,
        numbers_of_a_kind(at_sampler(s, name, then), start, end),
    ensures
        answers_agree(
            reduce_of(s, name, start, end, func, then),
            reduce_of(back, name, start, end, func, then),
        ),
{
    law_restore_restores_schema(s, log, compact_threshold, inputs, back);
    law_restore_is_well_formed(s, log, compact_threshold, inputs, back, then);
    assert(stack_wf(stack_of(s.env(then).stacks, name)));
    assert(stack_wf(stack_of(back.env(then).stacks, name)));
    assert forall|t: i64| agree(
        #[trigger] newest(stack_of(s.db.stacks, name), seq![t], None),
        newest(stack_of(back.db.stacks, name), seq![t], None),
    ) by {
        law_restore_keeps_layers(s, log, compact_threshold, inputs, back, name, seq![t], None);
    }
    lemma_reduce_alike(s, back, name, start, end, func, then);
}

} // verus!
