//! What a restart keeps: a database rebuilt from its log has the schema of the database
//! that wrote the log.

use crate::ast::{Expr, Stmt, StmtV};
use crate::catalog::{mentions, reaches, reaches_in, reads, Derivations};
use crate::copy::{rows_of, rows_view, Row};
use crate::database::{
    declarations, is_max_layer_id, live_records, log_write, rewritten, DatabaseV, RecordV,
};
use crate::error::ExecErrorV;
use crate::eval::materialised;
use crate::inputs::{file_text, Inputs};
use crate::layers::Segment;
use crate::lex::blanks;
use crate::memory::{stack_of, Limits, Stacks};
use crate::model::Layer;
use crate::names::lists_keys;
use crate::parser::statement;
use crate::recovery::{empty_state, is_declaration, rebuilt, record_replayed, replayed};
use crate::replay::{
    is_plain_schema, law_schema_text_reads_back, lemma_schema_read, lemma_statement_plain,
};
use crate::state::{
    after_trial, boxes_written, checked_boxes, definitions, dependents_refreshed, drop_lens_of,
    file_copied, filled, first_refused, flat_rows, is_stirred, laid, laid_as, lens_changed,
    literal_rows, materialised_lens, materialising, next_number, no_boxes_meet, note,
    reads_single_axis, recomputed, refreshed, refused_axes, row_boxes, rows_allowed, rows_tried,
    rows_written, schema_record, segments_type, turned, BoxLiteral, BoxV, DefV, Refresh, StateV,
    World,
};
use crate::value::Value;
use std::sync::Arc;
use vstd::prelude::*;

verus! {

/// The derivations are written alike.
pub open spec fn same_derivations(a: Derivations, b: Derivations) -> bool {
    &&& a.dom() == b.dom()
    &&& forall|n: Seq<char>| #[trigger] a.contains_key(n) ==> (*a[n])@ == (*b[n])@
}

/// The definitions of materialised lenses are written alike.
pub open spec fn same_definitions(a: Map<Seq<char>, DefV>, b: Map<Seq<char>, DefV>) -> bool {
    &&& a.dom() == b.dom()
    &&& forall|n: Seq<char>| #[trigger]
        a.contains_key(n) ==> a[n].expr@ == b[n].expr@ && a[n].range == b[n].range
}

/// The two databases have the same schema.
pub open spec fn same_schema(a: StateV, b: StateV) -> bool {
    &&& a.types == b.types
    &&& same_derivations(a.derived, b.derived)
    &&& a.ranges == b.ranges
    &&& same_definitions(a.stored, b.stored)
    &&& a.ttl == b.ttl
    &&& a.axes == b.axes
}

pub proof fn lemma_mentions_alike(d: &Expr, e: &Expr, lens: Seq<char>)
    requires
        d@ == e@,
    ensures
        mentions(d, lens) == mentions(e, lens),
    decreases d,
{
    match *d {
        Expr::Unary { expr, .. } => {
            if let Expr::Unary { expr: other, .. } = *e {
                lemma_mentions_alike(&expr, &other, lens);
            }
        },
        Expr::Binary { lhs, rhs, .. } => {
            if let Expr::Binary { lhs: l, rhs: r, .. } = *e {
                lemma_mentions_alike(&lhs, &l, lens);
                lemma_mentions_alike(&rhs, &r, lens);
            }
        },
        _ => {},
    }
}

proof fn lemma_reaches_in_alike(
    a: Derivations,
    b: Derivations,
    d: &Expr,
    e: &Expr,
    lens: Seq<char>,
    k: nat,
)
    requires
        same_derivations(a, b),
        d@ == e@,
    ensures
        reaches_in(a, d, lens, k) == reaches_in(b, e, lens, k),
    decreases k,
{
    lemma_mentions_alike(d, e, lens);
    if k > 0 {
        let m = (k - 1) as nat;
        assert forall|via: Seq<char>| #[trigger] mentions(d, via) && a.contains_key(via)
            && reaches_in(a, &*a[via], lens, m) implies mentions(e, via) && b.contains_key(via)
            && reaches_in(b, &*b[via], lens, m) by {
            lemma_mentions_alike(d, e, via);
            lemma_reaches_in_alike(a, b, &*a[via], &*b[via], lens, m);
        }
        assert forall|via: Seq<char>| #[trigger] mentions(e, via) && b.contains_key(via)
            && reaches_in(b, &*b[via], lens, m) implies mentions(d, via) && a.contains_key(via)
            && reaches_in(a, &*a[via], lens, m) by {
            lemma_mentions_alike(d, e, via);
            lemma_reaches_in_alike(a, b, &*a[via], &*b[via], lens, m);
        }
    }
}

proof fn lemma_reaches_alike(a: Derivations, b: Derivations, d: &Expr, e: &Expr, lens: Seq<char>)
    requires
        same_derivations(a, b),
        d@ == e@,
    ensures
        reaches(a, d, lens) == reaches(b, e, lens),
        reads(a, d, lens) == reads(b, e, lens),
{
    if reaches(a, d, lens) {
        let k = choose|k: nat| reaches_in(a, d, lens, k);
        lemma_reaches_in_alike(a, b, d, e, lens, k);
    }
    if reaches(b, e, lens) {
        let k = choose|k: nat| reaches_in(b, e, lens, k);
        lemma_reaches_in_alike(a, b, d, e, lens, k);
    }
}

proof fn lemma_definitions_alike(a: StateV, b: StateV)
    requires
        same_schema(a, b),
    ensures
        same_derivations(definitions(a), definitions(b)),
{
    let (x, y) = (definitions(a), definitions(b));
    assert forall|n: Seq<char>| x.contains_key(n) == y.contains_key(n) by {
        assert(a.derived.dom().contains(n) == b.derived.dom().contains(n));
        assert(a.stored.dom().contains(n) == b.stored.dom().contains(n));
    }
    assert(x.dom() =~= y.dom());
    assert forall|n: Seq<char>| #[trigger] x.contains_key(n) implies (*x[n])@ == (*y[n])@ by {
        assert(a.derived.dom().contains(n) == b.derived.dom().contains(n));
        if a.derived.contains_key(n) {
            assert((*a.derived[n])@ == (*b.derived[n])@);
        } else {
            assert(a.stored.contains_key(n));
        }
    }
}

proof fn lemma_reads_alike(a: StateV, b: StateV, d: &Expr, e: &Expr)
    requires
        same_schema(a, b),
        d@ == e@,
    ensures
        reads_single_axis(a, d) == reads_single_axis(b, e),
        Set::new(|n: Seq<char>| reads(a.derived, d, n)) == Set::new(
            |n: Seq<char>| reads(b.derived, e, n),
        ),
{
    assert forall|n: Seq<char>| reads(a.derived, d, n) == reads(b.derived, e, n) by {
        lemma_reaches_alike(a.derived, b.derived, d, e, n);
    }
    assert forall|n: Seq<char>| #[trigger] reads(a.derived, d, n) implies reads(
        b.derived,
        e,
        n,
    ) by {
        lemma_reaches_alike(a.derived, b.derived, d, e, n);
    }
    assert forall|n: Seq<char>| #[trigger] reads(b.derived, e, n) implies reads(
        a.derived,
        d,
        n,
    ) by {
        lemma_reaches_alike(a.derived, b.derived, d, e, n);
    }
    assert(Set::new(|n: Seq<char>| reads(a.derived, d, n)) =~= Set::new(
        |n: Seq<char>| reads(b.derived, e, n),
    ));
}

/// Two statements that are written alike, taken up with the same schema, leave the same
/// schema.
proof fn lemma_statement_alike(
    a: World,
    b: World,
    d: &Stmt,
    e: &Stmt,
    i: &Inputs,
    j: &Inputs,
    r: Result<(), ExecErrorV>,
    q: Result<(), ExecErrorV>,
    a2: World,
    b2: World,
)
    requires
        same_schema(a.state, b.state),
        d@ == e@,
        is_declaration(d@),
        lens_changed(a, d, true, i, r, a2),
        lens_changed(b, e, true, j, q, b2),
    ensures
        same_schema(a2.state, b2.state),
{
    match *d {
        Stmt::Derive { name, expr, range } => {
            if let Stmt::Derive { name: n, expr: x, range: w } = *e {
                lemma_definitions_alike(a.state, b.state);
                lemma_reaches_alike(
                    definitions(a.state),
                    definitions(b.state),
                    &expr,
                    &x,
                    name@,
                );
                lemma_reads_alike(a.state, b.state, &expr, &x);
                assert(a2.state.derived.dom() =~= b2.state.derived.dom());
            }
        },
        Stmt::Xderive { name, expr, range } => {
            if let Stmt::Xderive { name: n, expr: x, range: w } = *e {
                lemma_reads_alike(a.state, b.state, &expr, &x);
                assert(a2.state.stored.dom() =~= b2.state.stored.dom());
            }
        },
        _ => {},
    }
}

/// Taking up one record keeps two equal schemas equal.
proof fn lemma_record_alike(
    a: World,
    b: World,
    record: RecordV<Value>,
    i: &Inputs,
    j: &Inputs,
    a2: World,
    b2: World,
)
    requires
        same_schema(a.state, b.state),
        record_replayed(a, record, i, a2),
        record_replayed(b, record, j, b2),
    ensures
        same_schema(a2.state, b2.state),
{
    match record {
        RecordV::Schema(text) => {
            if let Some((v, _)) = statement(text) {
                if is_declaration(v) {
                    let (d, r) = choose|d: Stmt, r: Result<(), ExecErrorV>| #[trigger]
                        lens_changed(a, &d, true, i, r, a2) && d@ == v;
                    let (e, q) = choose|e: Stmt, q: Result<(), ExecErrorV>| #[trigger]
                        lens_changed(b, &e, true, j, q, b2) && e@ == v;
                    lemma_statement_alike(a, b, &d, &e, i, j, r, q, a2, b2);
                }
            }
        },
        RecordV::Layer(lens, layer) => {},
        RecordV::Drop(lens) => {
            assert(a2.state.derived.dom() =~= b2.state.derived.dom());
            assert(a2.state.stored.dom() =~= b2.state.stored.dom());
        },
    }
}

/// Rebuilding from one log gives one schema, whatever else is known at the time.
pub proof fn law_log_gives_one_schema(
    log: Seq<RecordV<Value>>,
    ws: Seq<World>,
    us: Seq<World>,
    i: &Inputs,
    j: &Inputs,
)
    requires
        replayed(log, ws, i),
        replayed(log, us, j),
        same_schema(ws[0].state, us[0].state),
    ensures
        same_schema(ws.last().state, us.last().state),
    decreases log.len(),
{
    if log.len() > 0 {
        let n = log.len() - 1;
        let ws1 = ws.drop_last();
        let us1 = us.drop_last();
        let log1 = log.drop_last();
        assert forall|p: int, q: int|
            #![trigger ws1[p], ws1[q]]
            0 <= p < log1.len() && q == p + 1 implies record_replayed(
            ws1[p],
            log1[p],
            i,
            ws1[q],
        ) by {
            assert(record_replayed(ws[p], log[p], i, ws[q]));
        }
        assert forall|p: int, q: int|
            #![trigger us1[p], us1[q]]
            0 <= p < log1.len() && q == p + 1 implies record_replayed(
            us1[p],
            log1[p],
            j,
            us1[q],
        ) by {
            assert(record_replayed(us[p], log[p], j, us[q]));
        }
        law_log_gives_one_schema(log1, ws1, us1, i, j);
        assert(record_replayed(ws[n], log[n], i, ws[n + 1]));
        assert(record_replayed(us[n], log[n], j, us[n + 1]));
        lemma_record_alike(ws[n], us[n], log[n], i, j, ws[n + 1], us[n + 1]);
    }
}


/// A declaration that succeeds at work succeeds when it is taken up, and leaves the same
/// schema.
proof fn lemma_declared_alike(
    live: World,
    d: &Stmt,
    e: &Stmt,
    i: &Inputs,
    j: &Inputs,
    after: World,
    rebuilt: World,
    q: Result<(), ExecErrorV>,
    next: World,
)
    requires
        d@ == e@,
        d is Create || d is Derive || d is SetTtl || d is UnsetTtl,
        same_schema(live.state, rebuilt.state),
        lens_changed(live, d, false, i, Ok(()), after),
        lens_changed(rebuilt, e, true, j, q, next),
    ensures
        same_schema(after.state, next.state),
{
    match *d {
        Stmt::Derive { name, expr, range } => {
            if let Stmt::Derive { name: n, expr: x, range: w } = *e {
                lemma_definitions_alike(live.state, rebuilt.state);
                lemma_reaches_alike(
                    definitions(live.state),
                    definitions(rebuilt.state),
                    &expr,
                    &x,
                    name@,
                );
                lemma_reads_alike(live.state, rebuilt.state, &expr, &x);
                assert(after.state.derived.dom() =~= next.state.derived.dom());
            }
        },
        _ => {},
    }
}


/// The two databases have literally the same schema.
pub open spec fn equal_schema(a: StateV, b: StateV) -> bool {
    &&& a.types == b.types
    &&& a.derived == b.derived
    &&& a.ranges == b.ranges
    &&& a.stored == b.stored
    &&& a.ttl == b.ttl
    &&& a.axes == b.axes
}

/// The schema of one database on the layers of another.
spec fn grafted(schema: World, rest: World) -> World {
    World {
        state: StateV { db: rest.state.db, next_id: rest.state.next_id, ..schema.state },
        faults: rest.faults,
    }
}

/// A record that is no layer can be taken up with other layers in place.
proof fn lemma_record_grafted(
    w: World,
    u: World,
    record: RecordV<Value>,
    i: &Inputs,
    after: World,
) -> (next: World)
    requires
        equal_schema(w.state, u.state),
        record_replayed(w, record, i, after),
        !(record is Layer),
    ensures
        record_replayed(u, record, i, next),
        equal_schema(after.state, next.state),
{
    match record {
        RecordV::Schema(text) => {
            let next = grafted(after, u);
            match statement(text) {
                None => {},
                Some((v, _)) => {
                    if is_declaration(v) {
                        let (d, r) = choose|d: Stmt, r: Result<(), ExecErrorV>| #[trigger]
                            lens_changed(w, &d, true, i, r, after) && d@ == v;
                        lemma_declaration_grafted(w, u, &d, i, r, after);
                        assert(lens_changed(u, &d, true, i, r, next));
                    }
                },
            }
            assert(record_replayed(u, record, i, next));
            next
        },
        RecordV::Drop(lens) => {
            let bare = drop_lens_of(u, lens, true).1;
            let db = u.state.db;
            let next = World {
                state: StateV {
                    db: DatabaseV {
                        stacks: db.stacks.remove(lens),
                        limits: Limits { own: db.limits.own.remove(lens), ..db.limits },
                        ..db
                    },
                    ..bare.state
                },
                ..bare
            };
            assert(record_replayed(u, record, i, next));
            next
        },
        RecordV::Layer(_, _) => u,
    }
}

/// A declaration that is taken up asks nothing of the layers.
proof fn lemma_declaration_grafted(
    w: World,
    u: World,
    d: &Stmt,
    i: &Inputs,
    r: Result<(), ExecErrorV>,
    after: World,
)
    requires
        equal_schema(w.state, u.state),
        is_declaration(d@),
        lens_changed(w, d, true, i, r, after),
    ensures
        lens_changed(u, d, true, i, r, grafted(after, u)),
{
    let next = grafted(after, u);
    match *d {
        Stmt::Derive { name, expr, range } => {
            if !reads_single_axis(w.state, &expr) && r is Err {
                if refused_axes(w.state, &expr, "DERIVE"@, r->Err_0) {
                    let (names, k) = choose|names: Seq<String>, k: int|
                        first_refused(w.state, &expr, "DERIVE"@, r->Err_0, names, k);
                    assert(first_refused(u.state, &expr, "DERIVE"@, r->Err_0, names, k));
                }
            }
            if after == w {
                assert(next == u);
            }
        },
        _ => {
            if after == w {
                assert(next == u);
            }
        },
    }
}


/// What a log leads through is led through, but for the layers, by its declarations alone.
proof fn lemma_declarations_alone(log: Seq<RecordV<Value>>, ws: Seq<World>, i: &Inputs) -> (us: Seq<
    World,
>)
    requires
        replayed(log, ws, i),
    ensures
        replayed(declarations(log), us, i),
        us[0] == ws[0],
        equal_schema(ws.last().state, us.last().state),
    decreases log.len(),
{
    if log.len() == 0 {
        ws
    } else {
        let n = log.len() - 1;
        let log1 = log.drop_last();
        let ws1 = ws.drop_last();
        lemma_shorter(log, ws, i);
        let us1 = lemma_declarations_alone(log1, ws1, i);
        assert(record_replayed(ws[n], log[n], i, ws[n + 1]));
        if log.last() is Layer {
            us1
        } else {
            let u = us1.last();
            let next = lemma_record_grafted(ws[n], u, log[n], i, ws[n + 1]);
            let us = us1.push(next);
            lemma_longer(declarations(log1), us1, log[n], next, i);
            us
        }
    }
}

/// The first records of a log lead through the first worlds.
proof fn lemma_shorter(log: Seq<RecordV<Value>>, ws: Seq<World>, i: &Inputs)
    requires
        replayed(log, ws, i),
        log.len() > 0,
    ensures
        replayed(log.drop_last(), ws.drop_last(), i),
        record_replayed(ws[log.len() - 1], log.last(), i, ws.last()),
        ws.drop_last().last() == ws[log.len() - 1],
        ws.drop_last()[0] == ws[0],
{
    let log1 = log.drop_last();
    let ws1 = ws.drop_last();
    assert forall|p: int, q: int|
        #![trigger ws1[p], ws1[q]]
        0 <= p < log1.len() && q == p + 1 implies record_replayed(ws1[p], log1[p], i, ws1[q]) by {
        assert(record_replayed(ws[p], log[p], i, ws[q]));
    }
    let n = log.len() - 1;
    assert(record_replayed(ws[n], log[n], i, ws[n + 1]));
}

proof fn lemma_longer(
    log: Seq<RecordV<Value>>,
    ws: Seq<World>,
    record: RecordV<Value>,
    next: World,
    i: &Inputs,
)
    requires
        replayed(log, ws, i),
        record_replayed(ws.last(), record, i, next),
    ensures
        replayed(log.push(record), ws.push(next), i),
{
    let log2 = log.push(record);
    let ws2 = ws.push(next);
    assert forall|p: int, q: int|
        #![trigger ws2[p], ws2[q]]
        0 <= p < log2.len() && q == p + 1 implies record_replayed(ws2[p], log2[p], i, ws2[q]) by {
        if p < log.len() {
            assert(record_replayed(ws[p], log[p], i, ws[q]));
        }
    }
}

/// A database without any declaration.
pub open spec fn is_bare(s: StateV) -> bool {
    &&& s.types == Map::<Seq<char>, crate::value::Type>::empty()
    &&& s.derived == Map::<Seq<char>, Arc<Expr>>::empty()
    &&& s.ranges == Map::<Seq<char>, (i64, i64)>::empty()
    &&& s.stored == Map::<Seq<char>, DefV>::empty()
    &&& s.ttl == Map::<Seq<char>, i64>::empty()
    &&& s.axes == Map::<Seq<char>, Seq<Seq<char>>>::empty()
}

/// The log accounts for the schema: its declarations, taken up one by one, give the schema
/// that the database has.
pub open spec fn accounts(s: StateV) -> bool {
    s.db.log matches Some(log) && forall|ws: Seq<World>, i: &Inputs|
        #[trigger] replayed(declarations(log), ws, i) && is_bare(ws[0].state) ==> same_schema(
            s,
            ws.last().state,
        )
}

/// A database whose log accounts for its schema has that schema again after a restart.
pub proof fn law_restart_restores_schema(
    s: StateV,
    compact_threshold: usize,
    inputs: &Inputs,
    back: StateV,
)
    requires
        accounts(s),
        rebuilt(s.db.log->Some_0, compact_threshold, inputs, back),
    ensures
        same_schema(s, back),
{
    let log = s.db.log->Some_0;
    let ws = choose|ws: Seq<World>| #[trigger]
        replayed(log, ws, inputs) && ws[0].state == empty_state(compact_threshold) && back
            == (StateV { next_id: back.next_id, ..ws.last().state }) && exists|id: u64| #[trigger]
            is_max_layer_id(back.db.stacks, id) && back.next_id == next_number(id);
    let us = lemma_declarations_alone(log, ws, inputs);
    assert(is_bare(us[0].state));
    assert(same_schema(s, us.last().state));
    lemma_same_schema_joins(s, us.last().state, ws.last().state);
}

proof fn lemma_same_schema_joins(a: StateV, b: StateV, c: StateV)
    requires
        same_schema(a, b),
        same_schema(b, c) || equal_schema(c, b),
    ensures
        same_schema(a, c),
{
    assert forall|n: Seq<char>| #[trigger] a.derived.contains_key(n) implies (*a.derived[n])@ == (
    *c.derived[n])@ by {
        assert(b.derived.contains_key(n));
    }
    assert forall|n: Seq<char>| #[trigger] a.stored.contains_key(n) implies a.stored[n].expr@
        == c.stored[n].expr@ && a.stored[n].range == c.stored[n].range by {
        assert(b.stored.contains_key(n));
    }
}

/// A new database accounts for its empty schema.
pub proof fn law_new_database_accounts(s: StateV)
    requires
        s.db.log == Some(Seq::<RecordV<Value>>::empty()),
        is_bare(s),
    ensures
        accounts(s),
{
    let log = Seq::<RecordV<Value>>::empty();
    assert forall|ws: Seq<World>, i: &Inputs| #[trigger] replayed(declarations(log), ws, i)
        && is_bare(ws[0].state) implies same_schema(s, ws.last().state) by {
        assert(declarations(log) =~= log);
    }
}


proof fn lemma_declarations_add(a: Seq<RecordV<Value>>, b: Seq<RecordV<Value>>)
    ensures
        declarations(a + b) == declarations(a) + declarations(b),
    decreases b.len(),
{
    if b.len() == 0 {
        assert(a + b =~= a);
        assert(declarations(a) + declarations(b) =~= declarations(a));
    } else {
        assert((a + b).drop_last() =~= a + b.drop_last());
        lemma_declarations_add(a, b.drop_last());
        let front = declarations(b.drop_last());
        assert(declarations(a) + front.push(b.last()) =~= (declarations(a) + front).push(b.last()));
    }
}

proof fn lemma_declarations_twice(log: Seq<RecordV<Value>>)
    ensures
        declarations(declarations(log)) == declarations(log),
    decreases log.len(),
{
    if log.len() > 0 {
        lemma_declarations_twice(log.drop_last());
        let front = declarations(log.drop_last());
        assert(front.push(log.last()).drop_last() =~= front);
    }
}

proof fn lemma_no_declarations(log: Seq<RecordV<Value>>)
    requires
        forall|k: int| 0 <= k < log.len() ==> (#[trigger] log[k]) is Layer,
    ensures
        declarations(log) == Seq::<RecordV<Value>>::empty(),
    decreases log.len(),
{
    if log.len() > 0 {
        assert(log.last() is Layer);
        lemma_no_declarations(log.drop_last());
    }
}

pub proof fn lemma_live_layers(names: Seq<String>, stacks: Stacks<Value>)
    ensures
        forall|k: int|
            0 <= k < live_records(names, stacks).len() ==> (#[trigger] live_records(
                names,
                stacks,
            )[k]) is Layer,
    decreases names.len(),
{
    if names.len() > 0 {
        lemma_live_layers(names.drop_last(), stacks);
    }
}

/// The schema is the same, and the log, if there is one, was added to by layers alone, or
/// rewritten.
pub open spec fn same_declarations(before: World, after: World) -> bool {
    &&& equal_schema(before.state, after.state)
    &&& before.state.db.log is Some ==> {
        &&& after.state.db.log is Some
        &&& declarations(before.state.db.log->Some_0) == declarations(after.state.db.log->Some_0)
    }
}

pub proof fn lemma_laid(
    w: World,
    name: Seq<char>,
    boxes: Seq<BoxV>,
    now_ms: i64,
    r: Result<(), ExecErrorV>,
    after: World,
)
    requires
        laid(w, name, boxes, now_ms, r, after),
    ensures
        same_declarations(w, after),
{
    let layer = choose|layer: Layer<Value>| laid_as(w, name, boxes, now_ms, r, after, layer);
    let log = w.state.db.log->Some_0;
    let record = RecordV::<Value>::Layer(name, layer);
    let (logged, left) = log_write(w.state.db, w.faults, record);
    if logged is Some && w.state.db.log is Some {
        let db = logged->0;
        assert(log.push(record).drop_last() =~= log);
        let written = log.push(record);
        let stacks = db.stacks.insert(name, stack_of(after.state.db.stacks, name));
        let ended = after.state.db.log->Some_0;
        if ended != written {
            assert(rewritten(written, stacks, ended));
            let names = choose|names: Seq<String>|
                lists_keys(names, stacks) && ended == declarations(written)
                    + #[trigger] live_records(names, stacks);
            lemma_live_layers(names, stacks);
            lemma_no_declarations(live_records(names, stacks));
            lemma_declarations_add(declarations(written), live_records(names, stacks));
            lemma_declarations_twice(written);
            assert(declarations(ended) =~= declarations(written));
        }
    }
}

proof fn lemma_recomputed(
    w: World,
    name: Seq<char>,
    inputs: &Inputs,
    r: Result<(), ExecErrorV>,
    after: World,
)
    requires
        recomputed(w, name, inputs, r, after),
    ensures
        same_declarations(w, after),
{
    let def = w.state.stored[name];
    if let Ok(segs) = materialised(w.state.env(inputs), &def.expr, def.range, w.state.fuel()) {
        if segs.len() > 0 {
            lemma_laid(w, name, row_boxes(segs), inputs.now_ms, r, after);
        }
    }
}

proof fn lemma_refreshed(
    w: World,
    left: Seq<String>,
    changed: Set<Seq<char>>,
    inputs: &Inputs,
    r: Result<(), ExecErrorV>,
    after: World,
)
    requires
        refreshed(w, left, changed, inputs, r, after),
    ensures
        same_declarations(w, after),
    decreases left.len(),
{
    let turn = choose|turn: Refresh| #[trigger]
        turned(w, left, changed, inputs, turn) && match turn.next {
            None => r is Ok && after == w,
            Some(i) => if !(0 <= i < left.len()) {
                false
            } else if !is_stirred(w.state, left, changed, i) {
                refreshed(w, left.remove(i), changed, inputs, r, after)
            } else if turn.result is Err {
                r == turn.result && after == turn.world
            } else {
                refreshed(
                    turn.world,
                    left.remove(i),
                    changed.insert(left[i]@),
                    inputs,
                    r,
                    after,
                )
            },
        };
    if let Some(i) = turn.next {
        if !is_stirred(w.state, left, changed, i) {
            lemma_refreshed(w, left.remove(i), changed, inputs, r, after);
        } else {
            lemma_recomputed(w, left[i]@, inputs, turn.result, turn.world);
            if turn.result is Ok {
                lemma_refreshed(
                    turn.world,
                    left.remove(i),
                    changed.insert(left[i]@),
                    inputs,
                    r,
                    after,
                );
            }
        }
    }
}

pub proof fn lemma_rows_written(
    w: World,
    name: Seq<char>,
    rows: Seq<Row>,
    inputs: &Inputs,
    r: Result<(), ExecErrorV>,
    after: World,
)
    requires
        rows_written(w, name, rows, inputs, r, after),
    ensures
        same_declarations(w, after),
{
    if rows.len() > 0 && rows_allowed(w.state, name, rows) is Ok {
        let tried = choose|tried: World| #[trigger]
            rows_tried(w, name, rows, inputs, r, tried) && after == after_trial(w, r, tried);
        let mid = choose|mid: Refresh| #[trigger]
            laid(w, name, row_boxes(rows), inputs.now_ms, mid.result, mid.world) && if mid.result
                is Err {
                r == mid.result && tried == mid.world
            } else {
                dependents_refreshed(mid.world, name, inputs, r, tried)
            };
        lemma_laid(w, name, row_boxes(rows), inputs.now_ms, mid.result, mid.world);
        if mid.result is Ok {
            let names = choose|names: Seq<String>| #[trigger]
                lists_keys(names, mid.world.state.stored) && refreshed(
                    mid.world,
                    names,
                    set![name],
                    inputs,
                    r,
                    tried,
                );
            lemma_refreshed(mid.world, names, set![name], inputs, r, tried);
        }
    }
}

proof fn lemma_still_accounts(w: World, after: World)
    requires
        accounts(w.state),
        same_declarations(w, after),
    ensures
        accounts(after.state),
{
    let log = w.state.db.log->Some_0;
    let ended = after.state.db.log->Some_0;
    assert forall|ws: Seq<World>, i: &Inputs| #[trigger] replayed(declarations(ended), ws, i)
        && is_bare(ws[0].state) implies same_schema(after.state, ws.last().state) by {
        assert(replayed(declarations(log), ws, i));
        assert(same_schema(w.state, ws.last().state));
    }
}


/// One more declaration in the log, and one more in the schema.
proof fn lemma_declared_accounts(
    live: World,
    after: World,
    record: RecordV<Value>,
)
    requires
        accounts(live.state),
        !(record is Layer),
        after.state.db.log == Some(live.state.db.log->Some_0.push(record)),
        forall|u: World, i: &Inputs, next: World|
            same_schema(live.state, u.state) && #[trigger] record_replayed(u, record, i, next)
                ==> same_schema(after.state, next.state),
    ensures
        accounts(after.state),
{
    let log = live.state.db.log->Some_0;
    let ended = log.push(record);
    assert(ended.drop_last() =~= log);
    assert(declarations(ended) == declarations(log).push(record));
    assert forall|ws: Seq<World>, i: &Inputs| #[trigger] replayed(declarations(ended), ws, i)
        && is_bare(ws[0].state) implies same_schema(after.state, ws.last().state) by {
        let told = declarations(ended);
        assert(told.drop_last() =~= declarations(log));
        lemma_shorter(told, ws, i);
        assert(same_schema(live.state, ws.drop_last().last().state));
        assert(record_replayed(ws.drop_last().last(), record, i, ws.last()));
    }
}

/// Filling a lens keeps the account.
proof fn lemma_filled_accounts(
    w: World,
    name: Seq<char>,
    segs: Seq<Segment<Value>>,
    now_ms: i64,
    r: Result<(), ExecErrorV>,
    after: World,
)
    requires
        accounts(w.state),
        filled(w, name, segs, now_ms, r, after),
    ensures
        accounts(after.state),
{
    if segs.len() > 0 {
        lemma_laid(w, name, row_boxes(segs), now_ms, r, after);
        lemma_still_accounts(w, after);
    }
}

/// The two declarations of a materialised lens.
proof fn lemma_materialised_accounts(
    live: World,
    name: Seq<char>,
    expr: &Expr,
    range: Option<(i64, i64)>,
    inputs: &Inputs,
    r: Result<(), ExecErrorV>,
    after: World,
)
    requires
        is_plain_schema(StmtV::Xderive { name, expr: expr@, range }),
        accounts(live.state),
        r is Ok,
        materialised_lens(live, name, expr, range, false, inputs, r, after),
    ensures
        accounts(after.state),
{
    let s = live.state;
    let segs = materialised(s.env(inputs), expr, range, s.fuel())->Ok_0;
    let ty = segments_type(segs);
    let def = DefV { expr: *expr, range };
    let tried = choose|tried: World| #[trigger]
        materialising(live, name, expr, range, segs, inputs, r, tried) && after == after_trial(
            live,
            r,
            tried,
        );
    let created = StmtV::Create { name, ty, axes: Seq::empty() };
    let defined = StmtV::Xderive { name, expr: expr@, range };
    let first = schema_record(created);
    let second = schema_record(defined);
    lemma_schema_read(created);
    lemma_schema_read(defined);
    let one = note(live, first).1;
    let two = note(one, second).1;
    let typed = World {
        state: StateV { types: one.state.types.insert(name, ty), ..one.state },
        ..one
    };
    assert forall|u: World, i: &Inputs, next: World|
        same_schema(live.state, u.state) && #[trigger] record_replayed(
            u,
            first,
            i,
            next,
        ) implies same_schema(typed.state, next.state) by {
        let (e, q) = choose|e: Stmt, q: Result<(), ExecErrorV>| #[trigger]
            lens_changed(u, &e, true, i, q, next) && e@ == created;
    }
    lemma_declared_accounts(live, typed, first);
    let whole = World {
        state: StateV {
            types: two.state.types.insert(name, ty),
            stored: two.state.stored.insert(name, def),
            ..two.state
        },
        ..two
    };
    assert forall|u: World, i: &Inputs, next: World|
        same_schema(typed.state, u.state) && #[trigger] record_replayed(
            u,
            second,
            i,
            next,
        ) implies same_schema(whole.state, next.state) by {
        let (e, q) = choose|e: Stmt, q: Result<(), ExecErrorV>| #[trigger]
            lens_changed(u, &e, true, i, q, next) && e@ == defined;
        if let Stmt::Xderive { name: n, expr: x, range: w } = e {
            lemma_reads_alike(typed.state, u.state, expr, &x);
            assert(whole.state.stored.dom() =~= next.state.stored.dom());
        }
    }
    lemma_declared_accounts(typed, whole, second);
    lemma_filled_accounts(whole, name, segs, inputs.now_ms, r, after);
}

/// Every statement that was parsed keeps the account of the schema, whether it fails or not.
pub proof fn law_statements_keep_account(
    query: Seq<char>,
    stmt: &Stmt,
    live: World,
    inputs: &Inputs,
    r: Result<(), ExecErrorV>,
    after: World,
)
    requires
        statement(query) is Some,
        stmt@ == (statement(query)->0).0,
        accounts(live.state),
        lens_changed(live, stmt, false, inputs, r, after),
    ensures
        accounts(after.state),
{
    let log = live.state.db.log->Some_0;
    lemma_statement_plain(blanks(query));
    match *stmt {
        Stmt::Append { name, taus } => {
            if let Ok(rows) = literal_rows(taus@, &inputs.floats) {
                lemma_rows_written(live, name@, rows, inputs, r, after);
                lemma_still_accounts(live, after);
            }
        },
        Stmt::BatchAppend { name, taus } => {
            if let Ok(rows) = literal_rows(taus@, &inputs.floats) {
                lemma_rows_written(live, name@, rows, inputs, r, after);
                lemma_still_accounts(live, after);
            }
        },
        Stmt::AppendNd { name, taus } => {
            lemma_boxes_written(live, name@, taus@, inputs, r, after);
            lemma_still_accounts(live, after);
        },
        Stmt::Copy { name, path } => {
            lemma_file_copied(live, name@, path@, inputs, r, after);
            lemma_still_accounts(live, after);
        },
        Stmt::Xderive { name, expr, range } => {
            if r is Ok {
                lemma_materialised_accounts(live, name@, &expr, range, inputs, r, after);
            }
        },
        Stmt::Create { .. } | Stmt::Derive { .. } | Stmt::SetTtl { .. } | Stmt::UnsetTtl { .. }
        | Stmt::Drop { .. } => {
            if r is Ok {
                lemma_one_record(query, stmt, live, inputs, after);
            } else {
                assert(after.state == live.state);
            }
        },
        _ => {},
    }
}

proof fn lemma_one_record(
    query: Seq<char>,
    stmt: &Stmt,
    live: World,
    inputs: &Inputs,
    after: World,
)
    requires
        statement(query) is Some,
        stmt@ == (statement(query)->0).0,
        stmt is Create || stmt is Derive || stmt is SetTtl || stmt is UnsetTtl || stmt is Drop,
        accounts(live.state),
        lens_changed(live, stmt, false, inputs, Ok(()), after),
    ensures
        accounts(after.state),
{
    law_schema_text_reads_back(query);
    let record = if let Stmt::Drop { name } = *stmt {
        RecordV::Drop(name@)
    } else {
        schema_record(stmt@)
    };
    assert forall|u: World, i: &Inputs, next: World|
        same_schema(live.state, u.state) && #[trigger] record_replayed(
            u,
            record,
            i,
            next,
        ) implies same_schema(after.state, next.state) by {
        if stmt is Drop {
            assert(after.state.derived.dom() =~= next.state.derived.dom());
            assert(after.state.stored.dom() =~= next.state.stored.dom());
        } else {
            let (e, q) = choose|e: Stmt, q: Result<(), ExecErrorV>| #[trigger]
                lens_changed(u, &e, true, i, q, next) && e@ == stmt@;
            lemma_declared_alike(live, stmt, &e, inputs, i, after, u, q, next);
        }
    }
    lemma_declared_accounts(live, after, record);
}

pub proof fn lemma_boxes_written(
    w: World,
    name: Seq<char>,
    taus: Seq<BoxLiteral>,
    inputs: &Inputs,
    r: Result<(), ExecErrorV>,
    after: World,
)
    requires
        boxes_written(w, name, taus, inputs, r, after),
    ensures
        same_declarations(w, after),
{
    let s = w.state;
    let arity = s.arity(name);
    if taus.len() == 0 {
    } else if arity == 1 {
        if let Ok(rows) = flat_rows(name, taus, &inputs.floats) {
            lemma_rows_written(w, name, rows, inputs, r, after);
        }
    } else if !s.stored.contains_key(name) && s.types.contains_key(name) {
        if let Ok(boxes) = checked_boxes(name, arity, s.types[name], taus, &inputs.floats) {
            if no_boxes_meet(boxes) {
                lemma_laid(w, name, boxes, inputs.now_ms, r, after);
            }
        }
    }
}

pub proof fn lemma_file_copied(
    w: World,
    name: Seq<char>,
    path: Seq<char>,
    inputs: &Inputs,
    r: Result<(), ExecErrorV>,
    after: World,
)
    requires
        file_copied(w, name, path, inputs, r, after),
    ensures
        same_declarations(w, after),
{
    if let Ok(text) = file_text(inputs.files@, path) {
        if let Ok(rows) = rows_of(text, 1, &inputs.floats) {
            let read = choose|read: Seq<Row>|
                rows_view(read) == rows && #[trigger] rows_written(
                    w,
                    name,
                    read,
                    inputs,
                    r,
                    after,
                );
            lemma_rows_written(w, name, read, inputs, r, after);
        }
    }
}

} // verus!
