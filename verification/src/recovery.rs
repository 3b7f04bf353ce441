//! Rebuilding a database from its log, and backing it up as one.

use crate::ast::{texts_view, Stmt, StmtV};
use crate::catalog::Derivations;
use crate::change::{shown, world};
use crate::database::{
    lemma_live_records_tell, lemma_told_drop, lemma_told_layer, lemma_told_schema, live_records,
    log_wf, logged_stack, push_stack, recoverable, records_view, told_by, DatabaseV, Record,
    RecordV, is_max_layer_id,
};
use crate::error::ExecErrorV;
use crate::faults::FaultInjector;
use crate::inputs::Inputs;
use crate::layers::{agree, newest};
use crate::memory::{grown, stack_of, Limits};
use crate::model::{Layer, Timestamp};
use crate::names::{listed, lists_keys};
use crate::parser::{parse, statement};
use crate::render::{create_text, derive_text, ttl_text};
use crate::state::{
    drop_lens_of, lens_changed, next_number, schema_record, DbState, DefV, StateV, World,
};
use crate::value::{Type, Value};
use vstd::prelude::*;

verus! {

/// The statement declares something about lenses and writes nothing.
pub open spec fn is_declaration(stmt: StmtV) -> bool {
    match stmt {
        StmtV::Create { .. } => true,
        StmtV::Derive { .. } => true,
        StmtV::Xderive { .. } => true,
        StmtV::SetTtl { .. } => true,
        StmtV::UnsetTtl { .. } => true,
        _ => false,
    }
}

/// Taking up the text of a declaration. A text that is none is passed over, and so is a
/// declaration that is refused.
pub open spec fn schema_replayed(w: World, text: Seq<char>, inputs: &Inputs, after: World) -> bool {
    match statement(text) {
        None => after == w,
        Some((v, _)) => if is_declaration(v) {
            exists|stmt: Stmt, r: Result<(), ExecErrorV>| #[trigger]
                lens_changed(w, &stmt, true, inputs, r, after) && stmt@ == v
        } else {
            after == w
        },
    }
}

/// Taking up one record of a log.
pub open spec fn record_replayed(
    w: World,
    record: RecordV<Value>,
    inputs: &Inputs,
    after: World,
) -> bool {
    let db = w.state.db;
    match record {
        RecordV::Schema(text) => schema_replayed(w, text, inputs, after),
        RecordV::Layer(lens, layer) => {
            let top = stack_of(after.state.db.stacks, lens);
            &&& grown(stack_of(db.stacks, lens), layer, db.limits.of(lens), top)
            &&& after == (World {
                state: StateV {
                    db: DatabaseV { stacks: db.stacks.insert(lens, top), ..db },
                    ..w.state
                },
                ..w
            })
        },
        RecordV::Drop(lens) => {
            let next = drop_lens_of(w, lens, true).1;
            after == (World {
                state: StateV {
                    db: DatabaseV {
                        stacks: db.stacks.remove(lens),
                        limits: Limits { own: db.limits.own.remove(lens), ..db.limits },
                        ..db
                    },
                    ..next.state
                },
                ..next
            })
        },
    }
}

/// The worlds that taking up a log, record by record, leads through.
pub open spec fn replayed(log: Seq<RecordV<Value>>, ws: Seq<World>, inputs: &Inputs) -> bool {
    &&& ws.len() == log.len() + 1
    &&& forall|i: int, j: int|
        #![trigger ws[i], ws[j]]
        0 <= i < log.len() && j == i + 1 ==> record_replayed(ws[i], log[i], inputs, ws[j])
}

/// An empty database that logs nothing.
pub open spec fn empty_state(compact_threshold: usize) -> StateV {
    StateV {
        types: Map::empty(),
        derived: Map::empty(),
        ranges: Map::empty(),
        stored: Map::empty(),
        ttl: Map::empty(),
        axes: Map::empty(),
        db: DatabaseV {
            stacks: Map::empty(),
            limits: Limits { general: compact_threshold, own: Map::empty() },
            log: None,
            compactions: 0,
            size: 0,
            max_bytes: None,
            events: Seq::empty(),
        },
        next_id: 1,
    }
}

/// `after` is what the log rebuilds: the last of the worlds that taking it up leads
/// through, with numbers for new layers beyond those in use.
pub open spec fn rebuilt(
    log: Seq<RecordV<Value>>,
    compact_threshold: usize,
    inputs: &Inputs,
    after: StateV,
) -> bool {
    exists|ws: Seq<World>| #[trigger]
        replayed(log, ws, inputs) && ws[0].state == empty_state(compact_threshold) && after
            == (StateV { next_id: after.next_id, ..ws.last().state }) && exists|id: u64| #[trigger]
            is_max_layer_id(after.db.stacks, id) && after.next_id == next_number(id)
}

/// A declaration that is taken up leaves the layers and the log alone.
pub proof fn lemma_declaration_keeps_layers(
    w: World,
    stmt: &Stmt,
    inputs: &Inputs,
    r: Result<(), ExecErrorV>,
    after: World,
)
    requires
        is_declaration(stmt@),
        lens_changed(w, stmt, true, inputs, r, after),
    ensures
        after.state.db == w.state.db,
        after.faults == w.faults,
{
}

fn declares(stmt: &Stmt) -> (r: bool)
    ensures
        r == is_declaration(stmt@),
{
    match stmt {
        Stmt::Create { .. } => true,
        Stmt::Derive { .. } => true,
        Stmt::Xderive { .. } => true,
        Stmt::SetTtl { .. } => true,
        Stmt::UnsetTtl { .. } => true,
        _ => false,
    }
}

impl DbState {
    /// Takes up the text of a declaration.
    pub fn replay_schema_stmt(&mut self, text: &str, inputs: &Inputs, faults: &mut FaultInjector)
        requires
            old(self)@.wf(),
        ensures
            final(self)@.wf(),
            schema_replayed(
                world(&*old(self), &*old(faults)),
                text@,
                inputs,
                world(&*final(self), &*final(faults)),
            ),
            final(self)@.db == old(self)@.db,
            final(faults).countdown == old(faults).countdown,
    {
        if let Ok((_, stmt)) = parse(text) {
            if declares(&stmt) {
                let ghost w = world(&*self, &*faults);
                let r = self.exec_lens(&stmt, true, inputs, faults);
                proof {
                    lemma_declaration_keeps_layers(
                        w,
                        &stmt,
                        inputs,
                        shown(r),
                        world(&*self, &*faults),
                    );
                }
            }
        }
    }

    /// Rebuilds a database from its log.
    pub fn recover(compact_threshold: usize, log: &Vec<Record<Value>>, inputs: &Inputs) -> (r: Self)
        requires
            log_wf(records_view(log@)),
        ensures
            r@.wf(),
            rebuilt(records_view(log@), compact_threshold, inputs, r@),
            told_by(records_view(log@), r@.db.stacks),
    {
        let mut faults = FaultInjector::new();
        let mut state = DbState::new(compact_threshold, false);
        let ghost records = records_view(log@);
        let ghost mut ws: Seq<World> = seq![world(&state, &faults)];
        let mut i: usize = 0;
        proof {
            assert(records.take(0) =~= Seq::empty());
            assert(state@ == empty_state(compact_threshold));
        }
        while i < log.len()
            invariant
                i <= log@.len(),
                log_wf(records_view(log@)),
                records == records_view(log@),
                state@.wf(),
                replayed(records.take(i as int), ws, inputs),
                ws[0].state == empty_state(compact_threshold),
                ws.last() == world(&state, &faults),
                state@.db.log is None,
                told_by(records.take(i as int), state@.db.stacks),
            decreases log@.len() - i,
        {
            let ghost w = world(&state, &faults);
            let ghost told = records.take(i as int);
            assert(records[i as int] == log@[i as int]@);
            match &log[i] {
                Record::Schema(text) => {
                    state.replay_schema_stmt(text.as_str(), inputs, &mut faults);
                    proof {
                        lemma_told_schema(told, state@.db.stacks, text@);
                    }
                },
                Record::Layer(lens, layer) => {
                    let _ = state.db.store.append(lens.as_str(), layer.clone());
                    proof {
                        lemma_told_layer(
                            told,
                            w.state.db.stacks,
                            lens@,
                            *layer,
                            state@.db.stacks,
                            w.state.db.limits.of(lens@),
                        );
                    }
                },
                Record::Drop(lens) => {
                    let _ = state.drop_lens(lens.as_str(), true, &mut faults);
                    let ghost next = state@;
                    state.db.drop_lens(lens.as_str());
                    proof {
                        let gone = w.state.db.stacks.remove(lens@);
                        assert(gone.remove(lens@) =~= gone);
                        let own = w.state.db.limits.own.remove(lens@);
                        assert(own.remove(lens@) =~= own);
                        lemma_told_drop(told, w.state.db.stacks, lens@);
                    }
                },
            }
            proof {
                let after = world(&state, &faults);
                let record = records[i as int];
                assert(record == log@[i as int]@);
                assert(record_replayed(w, record, inputs, after));
                let next = ws.push(after);
                assert(records.take(i + 1) =~= told.push(record));
                assert forall|p: int, q: int|
                    #![trigger next[p], next[q]]
                    0 <= p < records.take(i + 1).len() && q == p + 1 implies record_replayed(
                    next[p],
                    records.take(i + 1)[p],
                    inputs,
                    next[q],
                ) by {
                    if p < i {
                        assert(record_replayed(ws[p], told[p], inputs, ws[q]));
                    }
                }
                ws = next;
            }
            i = i + 1;
        }
        assert(records.take(records.len() as int) =~= records);
        let id: u64 = state.db.max_layer_id();
        state.next_layer_id = if id == u64::MAX {
            0
        } else {
            id + 1
        };
        proof {
            assert(replayed(records, ws, inputs));
            assert(is_max_layer_id(state@.db.stacks, id));
        }
        state
    }

    /// Opens a database whose log is the given one.
    pub fn with_wal(compact_threshold: usize, log: Vec<Record<Value>>, inputs: &Inputs) -> (r: Self)
        requires
            log_wf(records_view(log@)),
        ensures
            r@.wf(),
            recoverable(r@.db),
            r@.db.log == Some(records_view(log@)),
            exists|bare: StateV| #[trigger]
                rebuilt(records_view(log@), compact_threshold, inputs, bare) && r@ == (StateV {
                    db: DatabaseV { log: Some(records_view(log@)), ..bare.db },
                    ..bare
                }),
    {
        let mut state = Self::recover(compact_threshold, &log, inputs);
        let ghost bare = state@;
        state.db.log = Some(log);
        assert(rebuilt(records_view(log@), compact_threshold, inputs, bare));
        state
    }
}

/// The declarations of base lenses, with the axes of those that have several.
pub open spec fn type_records(
    names: Seq<String>,
    types: Map<Seq<char>, Type>,
    axes: Map<Seq<char>, Seq<Seq<char>>>,
) -> Seq<RecordV<Value>> {
    names.map_values(
        |name: String|
            schema_record(
                StmtV::Create { name: name@, ty: types[name@], axes: axes_in(axes, name@) },
            ),
    )
}

/// The axes of a lens that has several; none where it has one.
pub open spec fn axes_in(axes: Map<Seq<char>, Seq<Seq<char>>>, name: Seq<char>) -> Seq<Seq<char>> {
    if axes.contains_key(name) {
        axes[name]
    } else {
        Seq::empty()
    }
}

/// The times to live.
pub open spec fn ttl_records(names: Seq<String>, ttl: Map<Seq<char>, i64>) -> Seq<RecordV<Value>> {
    names.map_values(
        |name: String| schema_record(StmtV::SetTtl { name: name@, secs: ttl[name@] }),
    )
}

/// The declarations of derived lenses.
pub open spec fn derive_records(
    names: Seq<String>,
    derived: Derivations,
    ranges: Map<Seq<char>, (i64, i64)>,
) -> Seq<RecordV<Value>> {
    names.map_values(
        |name: String|
            schema_record(
                StmtV::Derive {
                    name: name@,
                    expr: derived[name@]@,
                    range: if ranges.contains_key(name@) {
                        Some(ranges[name@])
                    } else {
                        None
                    },
                },
            ),
    )
}

/// The declarations of materialised lenses.
pub open spec fn stored_records(names: Seq<String>, stored: Map<Seq<char>, DefV>) -> Seq<
    RecordV<Value>,
> {
    names.map_values(
        |name: String|
            schema_record(
                StmtV::Xderive {
                    name: name@,
                    expr: stored[name@].expr@,
                    range: stored[name@].range,
                },
            ),
    )
}

/// The names of everything in a database, by kind.
pub struct Listing {
    pub lazy: Seq<String>,
    pub base: Seq<String>,
    pub held: Seq<String>,
    pub timed: Seq<String>,
    pub full: Seq<String>,
}

/// The listing is that of the database, each kind in name order.
pub open spec fn lists_state(names: Listing, s: StateV) -> bool {
    &&& lists_keys(names.lazy, s.derived)
    &&& lists_keys(names.base, s.types)
    &&& lists_keys(names.held, s.stored)
    &&& lists_keys(names.timed, s.ttl)
    &&& lists_keys(names.full, s.db.stacks)
}

/// The declarations of a database: its derived, base and materialised lenses, then its times
/// to live.
pub open spec fn state_records(names: Listing, s: StateV) -> Seq<RecordV<Value>> {
    derive_records(names.lazy, s.derived, s.ranges) + type_records(names.base, s.types, s.axes)
        + stored_records(names.held, s.stored) + ttl_records(names.timed, s.ttl)
}

/// `log` backs up a database: its declarations, then its layers.
pub open spec fn backs_up(s: StateV, log: Seq<RecordV<Value>>) -> bool {
    exists|names: Listing| #[trigger]
        lists_state(names, s) && log == state_records(names, s) + live_records(
            names.full,
            s.db.stacks,
        )
}

/// A backup tells of exactly the stacks of the database.
pub proof fn law_backup_holds_everything(s: StateV, log: Seq<RecordV<Value>>)
    requires
        backs_up(s, log),
    ensures
        forall|lens: Seq<char>| #[trigger] logged_stack(log, lens) == stack_of(s.db.stacks, lens),
{
    let names = choose|names: Listing| #[trigger]
        lists_state(names, s) && log == state_records(names, s) + live_records(
            names.full,
            s.db.stacks,
        );
    let head = state_records(names, s);
    let full = names.full;
    assert forall|lens: Seq<char>| #[trigger] logged_stack(log, lens) == stack_of(
        s.db.stacks,
        lens,
    ) by {
        lemma_schema_tells_nothing(head, lens);
        lemma_live_records_tell(head, full, s.db.stacks, lens);
        assert(s.db.stacks.contains_key(lens) <==> listed(full, lens));
    }
}

proof fn lemma_schema_tells_nothing(log: Seq<RecordV<Value>>, lens: Seq<char>)
    requires
        forall|i: int| 0 <= i < log.len() ==> (#[trigger] log[i]) is Schema,
    ensures
        logged_stack(log, lens).len() == 0,
    decreases log.len(),
{
    if log.len() > 0 {
        assert(log[log.len() - 1] is Schema);
        lemma_schema_tells_nothing(log.drop_last(), lens);
    }
}

/// The worlds that taking up a log leads through hold what the records so far tell.
proof fn lemma_replayed_told(
    log: Seq<RecordV<Value>>,
    ws: Seq<World>,
    inputs: &Inputs,
    k: int,
)
    requires
        replayed(log, ws, inputs),
        ws[0].state.db.stacks == Map::<Seq<char>, Seq<Layer<Value>>>::empty(),
        0 <= k <= log.len(),
    ensures
        told_by(log.take(k), ws[k].state.db.stacks),
    decreases k,
{
    if k == 0 {
        assert(log.take(0) =~= Seq::empty());
    } else {
        let i = k - 1;
        lemma_replayed_told(log, ws, inputs, i);
        let (w, after) = (ws[i], ws[k]);
        assert(record_replayed(w, log[i], inputs, after));
        assert(log.take(k) =~= log.take(i).push(log[i]));
        match log[i] {
            RecordV::Schema(text) => {
                lemma_told_schema(log.take(i), w.state.db.stacks, text);
                if let Some((v, _)) = statement(text) {
                    if is_declaration(v) {
                        let (stmt, r) = choose|stmt: Stmt, r: Result<(), ExecErrorV>| #[trigger]
                            lens_changed(w, &stmt, true, inputs, r, after) && stmt@ == v;
                        lemma_declaration_keeps_layers(w, &stmt, inputs, r, after);
                    }
                }
            },
            RecordV::Layer(lens, layer) => {
                lemma_told_layer(
                    log.take(i),
                    w.state.db.stacks,
                    lens,
                    layer,
                    after.state.db.stacks,
                    w.state.db.limits.of(lens),
                );
            },
            RecordV::Drop(lens) => {
                lemma_told_drop(log.take(i), w.state.db.stacks, lens);
            },
        }
    }
}

/// A database rebuilt from a log holds what the log tells.
pub proof fn law_rebuilt_holds_the_log(
    log: Seq<RecordV<Value>>,
    compact_threshold: usize,
    inputs: &Inputs,
    after: StateV,
)
    requires
        rebuilt(log, compact_threshold, inputs, after),
    ensures
        told_by(log, after.db.stacks),
{
    let ws = choose|ws: Seq<World>| #[trigger]
        replayed(log, ws, inputs) && ws[0].state == empty_state(compact_threshold) && after
            == (StateV { next_id: after.next_id, ..ws.last().state }) && exists|id: u64| #[trigger]
            is_max_layer_id(after.db.stacks, id) && after.next_id == next_number(id);
    lemma_replayed_told(log, ws, inputs, log.len() as int);
    assert(log.take(log.len() as int) =~= log);
}

/// The layers of a database restored from a backup say of every point what those of the
/// database say that was backed up.
pub proof fn law_restore_keeps_layers(
    s: StateV,
    log: Seq<RecordV<Value>>,
    compact_threshold: usize,
    inputs: &Inputs,
    restored: StateV,
    lens: Seq<char>,
    ts: Seq<Timestamp>,
    as_of: Option<i64>,
)
    requires
        backs_up(s, log),
        rebuilt(log, compact_threshold, inputs, restored),
    ensures
        agree(
            newest(stack_of(s.db.stacks, lens), ts, as_of),
            newest(stack_of(restored.db.stacks, lens), ts, as_of),
        ),
{
    law_backup_holds_everything(s, log);
    law_rebuilt_holds_the_log(log, compact_threshold, inputs, restored);
    assert(agree(
        newest(logged_stack(log, lens), ts, as_of),
        newest(stack_of(restored.db.stacks, lens), ts, as_of),
    ));
}

impl DbState {
    /// The log that a backup of this database is.
    pub fn backup(&self) -> (r: Vec<Record<Value>>)
        ensures
            backs_up(self@, records_view(r@)),
            log_wf(records_view(r@)),
    {
        let ghost s = self@;
        let mut out: Vec<Record<Value>> = Vec::new();
        let lazy = self.catalog.derived.names();
        let mut i: usize = 0;
        assert(records_view(out@) =~= derive_records(lazy@.take(0), s.derived, s.ranges));
        while i < lazy.len()
            invariant
                i <= lazy@.len(),
                s == self@,
                lists_keys(lazy@, s.derived),
                records_view(out@) == derive_records(lazy@.take(i as int), s.derived, s.ranges),
            decreases lazy@.len() - i,
        {
            let name = lazy[i].as_str();
            assert(listed(lazy@, name@));
            if let Some(expr) = self.catalog.derived.get(name) {
                let range: Option<(i64, i64)> = match self.catalog.ranges.get(name) {
                    Some(w) => Some(*w),
                    None => None,
                };
                let ghost before = out@;
                let record = Record::Schema(derive_text(name, expr, range, false));
                out.push(record);
                proof {
                    assert(records_view(out@) =~= records_view(before).push(record@));
                    assert(derive_records(lazy@.take(i + 1), s.derived, s.ranges)
                        =~= derive_records(lazy@.take(i as int), s.derived, s.ranges).push(
                        record@,
                    ));
                }
            }
            i = i + 1;
        }
        assert(lazy@.take(lazy@.len() as int) =~= lazy@);
        let ghost derived = derive_records(lazy@, s.derived, s.ranges);
        let base = self.catalog.types.names();
        let none: Vec<String> = Vec::new();
        i = 0;
        assert(texts_view(none@) =~= Seq::empty());
        assert(records_view(out@) =~= derived + type_records(base@.take(0), s.types, s.axes));
        while i < base.len()
            invariant
                i <= base@.len(),
                s == self@,
                lists_keys(base@, s.types),
                texts_view(none@) == Seq::<Seq<char>>::empty(),
                records_view(out@) == derived + type_records(
                    base@.take(i as int),
                    s.types,
                    s.axes,
                ),
            decreases base@.len() - i,
        {
            let name = base[i].as_str();
            assert(listed(base@, name@));
            if let Some(ty) = self.catalog.types.get(name) {
                let ghost before = out@;
                let axes: &Vec<String> = match self.catalog.axes.get(name) {
                    Some(axes) => &**axes,
                    None => &none,
                };
                assert(texts_view(axes@) == axes_in(s.axes, name@));
                let record = Record::Schema(create_text(name, *ty, axes));
                out.push(record);
                proof {
                    assert(records_view(out@) =~= records_view(before).push(record@));
                    assert(type_records(base@.take(i + 1), s.types, s.axes) =~= type_records(
                        base@.take(i as int),
                        s.types,
                        s.axes,
                    ).push(record@));
                    assert(records_view(out@) =~= derived + type_records(
                        base@.take(i + 1),
                        s.types,
                        s.axes,
                    ));
                }
            }
            i = i + 1;
        }
        assert(base@.take(base@.len() as int) =~= base@);
        let ghost typed = derived + type_records(base@, s.types, s.axes);
        let held = self.catalog.stored.names();
        i = 0;
        assert(records_view(out@) =~= typed + stored_records(held@.take(0), s.stored));
        while i < held.len()
            invariant
                i <= held@.len(),
                s == self@,
                lists_keys(held@, self.catalog.stored@),
                records_view(out@) == typed + stored_records(held@.take(i as int), s.stored),
            decreases held@.len() - i,
        {
            let name = held[i].as_str();
            assert(listed(held@, name@));
            if let Some(def) = self.catalog.stored.get(name) {
                let ghost before = out@;
                let record = Record::Schema(derive_text(name, &def.expr, def.range, true));
                out.push(record);
                proof {
                    assert(s.stored[name@].expr == def.expr);
                    assert(records_view(out@) =~= records_view(before).push(record@));
                    assert(stored_records(held@.take(i + 1), s.stored) =~= stored_records(
                        held@.take(i as int),
                        s.stored,
                    ).push(record@));
                    assert(records_view(out@) =~= typed + stored_records(
                        held@.take(i + 1),
                        s.stored,
                    ));
                }
            }
            i = i + 1;
        }
        assert(held@.take(held@.len() as int) =~= held@);
        let ghost stored = typed + stored_records(held@, s.stored);
        let timed = self.catalog.ttl.names();
        i = 0;
        assert(records_view(out@) =~= stored + ttl_records(timed@.take(0), s.ttl));
        while i < timed.len()
            invariant
                i <= timed@.len(),
                s == self@,
                lists_keys(timed@, s.ttl),
                records_view(out@) == stored + ttl_records(timed@.take(i as int), s.ttl),
            decreases timed@.len() - i,
        {
            let name = timed[i].as_str();
            assert(listed(timed@, name@));
            if let Some(secs) = self.catalog.ttl.get(name) {
                let ghost before = out@;
                let record = Record::Schema(ttl_text(name, Some(*secs)));
                out.push(record);
                proof {
                    assert(records_view(out@) =~= records_view(before).push(record@));
                    assert(ttl_records(timed@.take(i + 1), s.ttl) =~= ttl_records(
                        timed@.take(i as int),
                        s.ttl,
                    ).push(record@));
                    assert(records_view(out@) =~= stored + ttl_records(timed@.take(i + 1), s.ttl));
                }
            }
            i = i + 1;
        }
        assert(timed@.take(timed@.len() as int) =~= timed@);
        let ghost declared = stored + ttl_records(timed@, s.ttl);
        let full = self.db.store.lens_names();
        i = 0;
        assert(records_view(out@) =~= declared + live_records(full@.take(0), s.db.stacks));
        assert(log_wf(records_view(out@)));
        while i < full.len()
            invariant
                i <= full@.len(),
                s == self@,
                lists_keys(full@, s.db.stacks),
                records_view(out@) == declared + live_records(full@.take(i as int), s.db.stacks),
                log_wf(records_view(out@)),
            decreases full@.len() - i,
        {
            let name = full[i].as_str();
            proof {
                assert(full@.take(i + 1).drop_last() =~= full@.take(i as int));
                assert(listed(full@, name@));
            }
            if let Some(layers) = self.db.store.layers(name) {
                push_stack(name, &layers, &mut out);
            }
            assert(records_view(out@) =~= declared + live_records(full@.take(i + 1), s.db.stacks));
            i = i + 1;
        }
        proof {
            assert(full@.take(full@.len() as int) =~= full@);
            assert forall|k: Seq<char>| #[trigger] s.stored.contains_key(k) <==> listed(held@, k) by {
                assert(self.catalog.stored@.contains_key(k) <==> listed(held@, k));
            }
            let names = Listing {
                lazy: lazy@,
                base: base@,
                held: held@,
                timed: timed@,
                full: full@,
            };
            assert(lists_state(names, s));
            assert(state_records(names, s) == declared);
        }
        out
    }
}

} // verus!
