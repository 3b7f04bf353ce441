//! A store with a write-ahead log.
//!
//! Every change is written to the log before the store takes it. Now and then the log is
//! rewritten to hold the declarations and the layers that are still live.

use crate::clock::{moment, nanoseconds_since};
use crate::faults::{after_write, FaultInjector, INJECTED_WAL_WRITE_ERROR};
use crate::layers::{agree, newest, probe, stack_wf, traces, Segment};
use crate::memory::{grown, law_append_is_seen, stack_of, InMemory, Limits, Stacks};
use crate::model::{Datum, Layer, LayerId, Timestamp};
use crate::names::{in_name_order, listed, lists_keys};
use crate::order::Rank;
use crate::output::LayerInfo;
use crate::query::info_of;
use crate::render::{drop_text, schema_text_of};
use crate::ast::StmtV;
use crate::text::owned;
use std::sync::Arc;
use vstd::prelude::*;

verus! {

/// How many compactions go by between two rewrites of the log.
pub const CHECKPOINT_COMPACTION_INTERVAL: usize = 8;

/// One record of the log.
#[derive(Debug)]
pub enum Record<V> {
    /// A declaration, as the text of its statement.
    Schema(String),
    /// A layer on top of a lens.
    Layer(String, Layer<V>),
    /// A lens and all its layers gone.
    Drop(String),
}

#[verifier::ext_equal]
pub enum RecordV<V> {
    Schema(Seq<char>),
    Layer(Seq<char>, Layer<V>),
    Drop(Seq<char>),
}

impl<V> View for Record<V> {
    type V = RecordV<V>;

    open spec fn view(&self) -> RecordV<V> {
        match *self {
            Record::Schema(text) => RecordV::Schema(text@),
            Record::Layer(lens, layer) => RecordV::Layer(lens@, layer),
            Record::Drop(lens) => RecordV::Drop(lens@),
        }
    }
}

impl<V> Record<V> {
    pub fn dup(&self) -> (r: Self)
        ensures
            r@ == self@,
    {
        match self {
            Record::Schema(text) => Record::Schema(text.clone()),
            Record::Layer(lens, layer) => Record::Layer(lens.clone(), layer.clone()),
            Record::Drop(lens) => Record::Drop(lens.clone()),
        }
    }
}

pub open spec fn records_view<V>(log: Seq<Record<V>>) -> Seq<RecordV<V>> {
    log.map_values(|r: Record<V>| r@)
}

/// What an append did, besides holding the layer.
#[derive(Debug, Clone, Copy, PartialEq, Eq, Structural)]
pub enum StoreEvent {
    /// The layer was written to the log, in so many nanoseconds.
    LogWrite { ns: u64 },
    /// The stack of the lens was merged.
    Merge,
}

/// A kind of event.
pub enum EventKind {
    LogWrite,
    Merge,
}

pub open spec fn kind_of(event: StoreEvent) -> EventKind {
    match event {
        StoreEvent::LogWrite { .. } => EventKind::LogWrite,
        StoreEvent::Merge => EventKind::Merge,
    }
}

pub open spec fn kinds(events: Seq<StoreEvent>) -> Seq<EventKind> {
    events.map_values(|event: StoreEvent| kind_of(event))
}

/// A database without its declarations: the stacks, and what decides about the log.
#[verifier::ext_equal]
pub struct DatabaseV<V> {
    pub stacks: Stacks<V>,
    pub limits: Limits,
    /// `None` where nothing is to outlive the process.
    pub log: Option<Seq<RecordV<V>>>,
    /// Compactions since the log was last rewritten.
    pub compactions: nat,
    /// The size of the log, as it was last told.
    pub size: u64,
    pub max_bytes: Option<u64>,
    /// What waits to be counted, in the order in which it happened.
    pub events: Seq<EventKind>,
}

/// A store of layers with a write-ahead log.
#[derive(Debug)]
pub struct Database<V> {
    pub store: InMemory<V>,
    pub log: Option<Vec<Record<V>>>,
    pub compactions: usize,
    pub size: u64,
    pub max_bytes: Option<u64>,
    pub events: Vec<StoreEvent>,
}

impl<V> View for Database<V> {
    type V = DatabaseV<V>;

    open spec fn view(&self) -> DatabaseV<V> {
        DatabaseV {
            stacks: self.store@,
            limits: self.store.limits(),
            log: match self.log {
                Some(log) => Some(records_view(log@)),
                None => None,
            },
            compactions: self.compactions as nat,
            size: self.size,
            max_bytes: self.max_bytes,
            events: kinds(self.events@),
        }
    }
}

/// Writing a record: the database with the record in its log, or `None` where the write
/// fails, and what is left of the countdown to the next fault.
pub open spec fn log_write<V>(db: DatabaseV<V>, faults: int, record: RecordV<V>) -> (
    Option<DatabaseV<V>>,
    int,
) {
    match db.log {
        None => (Some(db), faults),
        Some(log) => {
            let (fails, left) = after_write(faults);
            if fails {
                (None, left)
            } else {
                (Some(DatabaseV { log: Some(log.push(record)), ..db }), left)
            }
        },
    }
}

/// The log has reached the size that it is to be rewritten at.
pub open spec fn rotation_due<V>(db: DatabaseV<V>) -> bool {
    db.log is Some && (db.max_bytes matches Some(m) && db.size >= m)
}

/// The records of a log that are not layers.
pub open spec fn declarations<V>(log: Seq<RecordV<V>>) -> Seq<RecordV<V>>
    decreases log.len(),
{
    if log.len() == 0 {
        Seq::empty()
    } else {
        let front = declarations(log.drop_last());
        match log.last() {
            RecordV::Layer(_, _) => front,
            record => front.push(record),
        }
    }
}

/// The layers of the lenses, lens by lens, as records.
pub open spec fn live_records<V>(names: Seq<String>, stacks: Stacks<V>) -> Seq<RecordV<V>>
    decreases names.len(),
{
    if names.len() == 0 {
        Seq::empty()
    } else {
        live_records(names.drop_last(), stacks) + stack_records(
            names.last()@,
            stack_of(stacks, names.last()@),
        )
    }
}

pub open spec fn stack_records<V>(lens: Seq<char>, stack: Seq<Layer<V>>) -> Seq<RecordV<V>> {
    stack.map_values(|layer: Layer<V>| RecordV::Layer(lens, layer))
}

/// `after` is the log `before` rewritten: its declarations, then every live layer, the
/// lenses in byte order.
pub open spec fn rewritten<V>(
    before: Seq<RecordV<V>>,
    stacks: Stacks<V>,
    after: Seq<RecordV<V>>,
) -> bool {
    exists|names: Seq<String>|
        lists_keys(names, stacks) && after == declarations(before) + #[trigger] live_records(
            names,
            stacks,
        )
}

/// `after` is `before` with its log rewritten.
pub open spec fn checkpointed<V>(before: DatabaseV<V>, after: DatabaseV<V>) -> bool {
    &&& after == (DatabaseV { log: after.log, compactions: 0, ..before })
    &&& match before.log {
        None => after.log is None,
        Some(log) => after.log is Some && rewritten(log, before.stacks, after.log->Some_0),
    }
}

/// What taking in a layer that has been logged makes of a database.
pub open spec fn settled<V: Datum>(
    logged: DatabaseV<V>,
    lens: Seq<char>,
    layer: Layer<V>,
    after: DatabaseV<V>,
) -> bool {
    let before = stack_of(logged.stacks, lens);
    let top = stack_of(after.stacks, lens);
    let shorter = top.len() < before.len() + 1;
    let count = logged.compactions + (if shorter {
        1nat
    } else {
        0nat
    });
    let taken = DatabaseV {
        stacks: logged.stacks.insert(lens, top),
        compactions: count,
        events: if shorter {
            logged.events.push(EventKind::Merge)
        } else {
            logged.events
        },
        ..logged
    };
    &&& grown(before, layer, logged.limits.of(lens), top)
    &&& if rotation_due(logged) || (shorter && count >= CHECKPOINT_COMPACTION_INTERVAL) {
        checkpointed(taken, after)
    } else {
        after == taken
    }
}

/// The database with a log write waiting to be counted, where there is a log.
pub open spec fn with_write<V>(db: DatabaseV<V>) -> DatabaseV<V> {
    if db.log is Some {
        DatabaseV { events: db.events.push(EventKind::LogWrite), ..db }
    } else {
        db
    }
}

/// Appending a layer: logged first, then taken in. Where the log write fails the database
/// stays as it is. The log write and a merge of the stack wait to be counted.
pub open spec fn appended<V: Datum>(
    db: DatabaseV<V>,
    faults: int,
    lens: Seq<char>,
    layer: Layer<V>,
    ok: bool,
    after: DatabaseV<V>,
    faults_after: int,
) -> bool {
    let (logged, left) = log_write(db, faults, RecordV::Layer(lens, layer));
    &&& faults_after == left
    &&& ok == (logged is Some)
    &&& match logged {
        None => after == db,
        Some(logged) => settled(with_write(logged), lens, layer, after),
    }
}

/// Noting a declaration in the log.
pub open spec fn noted<V>(
    db: DatabaseV<V>,
    faults: int,
    record: RecordV<V>,
    ok: bool,
    after: DatabaseV<V>,
    faults_after: int,
) -> bool {
    let (logged, left) = log_write(db, faults, record);
    &&& faults_after == left
    &&& ok == (logged is Some)
    &&& after == match logged {
        None => db,
        Some(logged) => logged,
    }
}

/// The stack of a lens that a log tells of.
pub open spec fn logged_stack<V>(log: Seq<RecordV<V>>, lens: Seq<char>) -> Seq<Layer<V>>
    decreases log.len(),
{
    if log.len() == 0 {
        Seq::empty()
    } else {
        let front = logged_stack(log.drop_last(), lens);
        match log.last() {
            RecordV::Layer(name, layer) => if name == lens {
                front.push(layer)
            } else {
                front
            },
            RecordV::Drop(name) => if name == lens {
                Seq::empty()
            } else {
                front
            },
            RecordV::Schema(_) => front,
        }
    }
}

/// The log tells of every value that the stacks hold, now and as of any earlier time.
pub open spec fn recoverable<V: Datum>(db: DatabaseV<V>) -> bool {
    db.log matches Some(log) ==> forall|lens: Seq<char>, ts: Seq<Timestamp>, as_of: Option<i64>|
        agree(
            #[trigger] newest(logged_stack(log, lens), ts, as_of),
            newest(stack_of(db.stacks, lens), ts, as_of),
        )
}

pub proof fn lemma_agree_chain<V: Datum>(a: Option<V>, b: Option<V>, c: Option<V>)
    requires
        agree(a, b),
        agree(c, b),
    ensures
        agree(a, c),
{
    if let (Some(x), Some(y)) = (a, b) {
        if let Some(z) = c {
            if x != y && z != y {
                V::alike_symmetric(z, y);
                V::alike_transitive(x, y, z);
            } else if z != y {
                V::alike_symmetric(z, y);
            }
        }
    }
}

/// An append keeps a database recoverable, whether its log write fails or not.
pub proof fn law_append_is_durable<V: Datum>(
    db: DatabaseV<V>,
    faults: int,
    lens: Seq<char>,
    layer: Layer<V>,
    ok: bool,
    after: DatabaseV<V>,
    faults_after: int,
)
    requires
        recoverable(db),
        appended(db, faults, lens, layer, ok, after, faults_after),
    ensures
        recoverable(after),
{
    if let (Some(logged), _) = log_write(db, faults, RecordV::Layer(lens, layer)) {
        if let Some(log) = db.log {
            let longer = log.push(RecordV::Layer(lens, layer));
            assert(longer.drop_last() =~= log);
            let top = stack_of(after.stacks, lens);
            let stacks = db.stacks.insert(lens, top);
            assert forall|l: Seq<char>, ts: Seq<Timestamp>, as_of: Option<i64>| agree(
                #[trigger] newest(logged_stack(longer, l), ts, as_of),
                newest(stack_of(stacks, l), ts, as_of),
            ) by {
                let told = logged_stack(log, l);
                let held = stack_of(db.stacks, l);
                assert(agree(newest(told, ts, as_of), newest(held, ts, as_of)));
                if l == lens {
                    assert(told.push(layer).drop_last() =~= told);
                    assert(held.push(layer).drop_last() =~= held);
                    law_append_is_seen(held, layer, db.limits.of(lens), top, ts, as_of);
                    lemma_agree_chain(
                        newest(told.push(layer), ts, as_of),
                        newest(held.push(layer), ts, as_of),
                        newest(top, ts, as_of),
                    );
                }
            }
            if after.log != Some(longer) {
                assert(after.stacks == stacks);
                lemma_rewritten_recovers(longer, stacks, after.log->Some_0);
            }
        }
    }
}

/// Noting a declaration keeps a database recoverable, whether its log write fails or not.
pub proof fn law_declaration_is_durable<V: Datum>(
    db: DatabaseV<V>,
    faults: int,
    text: Seq<char>,
    ok: bool,
    after: DatabaseV<V>,
    faults_after: int,
)
    requires
        recoverable(db),
        noted(db, faults, RecordV::Schema(text), ok, after, faults_after),
    ensures
        recoverable(after),
{
    if let Some(log) = db.log {
        lemma_told_schema(log, db.stacks, text);
    }
}

/// Dropping a lens: logged first, then gone. A drop keeps a database recoverable, whether its
/// log write fails or not.
pub proof fn law_drop_is_durable<V: Datum>(
    db: DatabaseV<V>,
    faults: int,
    lens: Seq<char>,
    ok: bool,
    logged: DatabaseV<V>,
    after: DatabaseV<V>,
    faults_after: int,
)
    requires
        recoverable(db),
        noted(db, faults, RecordV::Drop(lens), ok, logged, faults_after),
        after == if ok {
            DatabaseV { stacks: logged.stacks.remove(lens), limits: after.limits, ..logged }
        } else {
            logged
        },
    ensures
        recoverable(after),
{
    if let Some(log) = db.log {
        lemma_told_drop(log, db.stacks, lens);
    }
}

/// A checkpoint keeps every live layer in the log, and with it everything that can be
/// looked up.
pub proof fn law_checkpoint_loses_nothing<V: Datum>(before: DatabaseV<V>, after: DatabaseV<V>)
    requires
        checkpointed(before, after),
    ensures
        recoverable(after),
        after.stacks == before.stacks,
        before.log is Some ==> forall|lens: Seq<char>| #[trigger]
            logged_stack(after.log->Some_0, lens) == stack_of(after.stacks, lens),
{
    if let Some(log) = before.log {
        lemma_rewritten_recovers(log, before.stacks, after.log->Some_0);
    }
}

proof fn lemma_rewritten_recovers<V: Datum>(
    before: Seq<RecordV<V>>,
    stacks: Stacks<V>,
    after: Seq<RecordV<V>>,
)
    requires
        rewritten(before, stacks, after),
    ensures
        forall|lens: Seq<char>| #[trigger] logged_stack(after, lens) == stack_of(stacks, lens),
{
    let names = choose|names: Seq<String>|
        lists_keys(names, stacks) && after == declarations(before) + #[trigger] live_records(
            names,
            stacks,
        );
    assert forall|lens: Seq<char>| #[trigger] logged_stack(after, lens) == stack_of(stacks, lens) by {
        lemma_declarations_tell_nothing(before, lens);
        lemma_live_records_tell(declarations(before), names, stacks, lens);
    }
}

proof fn lemma_declarations_tell_nothing<V>(log: Seq<RecordV<V>>, lens: Seq<char>)
    ensures
        logged_stack(declarations(log), lens).len() == 0,
    decreases log.len(),
{
    if log.len() > 0 {
        lemma_declarations_tell_nothing(log.drop_last(), lens);
        let front = declarations(log.drop_last());
        assert(front.push(log.last()).drop_last() =~= front);
    }
}

proof fn lemma_stack_records_tell<V>(
    log: Seq<RecordV<V>>,
    name: Seq<char>,
    stack: Seq<Layer<V>>,
    lens: Seq<char>,
)
    ensures
        logged_stack(log + stack_records(name, stack), lens) == if name == lens {
            logged_stack(log, lens) + stack
        } else {
            logged_stack(log, lens)
        },
    decreases stack.len(),
{
    let all = log + stack_records(name, stack);
    if stack.len() == 0 {
        assert(all =~= log);
        assert(logged_stack(log, lens) + stack =~= logged_stack(log, lens));
    } else {
        assert(all.drop_last() =~= log + stack_records(name, stack.drop_last()));
        assert(all.last() == RecordV::Layer(name, stack.last()));
        lemma_stack_records_tell(log, name, stack.drop_last(), lens);
        assert((logged_stack(log, lens) + stack.drop_last()).push(stack.last()) =~= logged_stack(
            log,
            lens,
        ) + stack);
    }
}

pub proof fn lemma_live_records_tell<V>(
    log: Seq<RecordV<V>>,
    names: Seq<String>,
    stacks: Stacks<V>,
    lens: Seq<char>,
)
    requires
        in_name_order(names),
        logged_stack(log, lens).len() == 0,
    ensures
        logged_stack(log + live_records(names, stacks), lens) == if listed(names, lens) {
            stack_of(stacks, lens)
        } else {
            Seq::empty()
        },
    decreases names.len(),
{
    if names.len() == 0 {
        assert(log + live_records(names, stacks) =~= log);
        assert(logged_stack(log, lens) =~= Seq::empty());
    } else {
        let front = names.drop_last();
        let last = names.last()@;
        lemma_name_order_prefix(names);
        lemma_live_records_tell(log, front, stacks, lens);
        let told = log + live_records(front, stacks);
        assert(log + live_records(names, stacks) =~= told + stack_records(
            last,
            stack_of(stacks, last),
        ));
        lemma_stack_records_tell(told, last, stack_of(stacks, last), lens);
        if last == lens {
            assert(names[names.len() - 1]@ == lens);
            assert(listed(names, lens));
            if listed(front, lens) {
                let i = choose|i: int| 0 <= i < front.len() && (#[trigger] front[i])@ == lens;
                assert(names[i]@ == names[names.len() - 1]@);
            }
            assert(Seq::<Layer<V>>::empty() + stack_of(stacks, lens) =~= stack_of(stacks, lens));
        } else {
            if listed(names, lens) {
                let i = choose|i: int| 0 <= i < names.len() && (#[trigger] names[i])@ == lens;
                assert(front[i]@ == lens);
            }
            if listed(front, lens) {
                let i = choose|i: int| 0 <= i < front.len() && (#[trigger] front[i])@ == lens;
                assert(names[i]@ == lens);
            }
        }
    }
}

proof fn lemma_name_order_prefix(names: Seq<String>)
    requires
        in_name_order(names),
        names.len() > 0,
    ensures
        in_name_order(names.drop_last()),
{
    let front = names.drop_last();
    assert forall|i: int, j: int|
        #![trigger front[i], front[j]]
        0 <= i < front.len() && 0 <= j < front.len() && front[i]@ == front[j]@ implies i == j by {
        assert(names[i]@ == names[j]@);
    }
    assert forall|i: int, j: int| #![trigger front[i], front[j]] 0 <= i < j < front.len() implies front[i].at_most(
        &front[j],
    ) by {
        assert(names[i] == front[i] && names[j] == front[j]);
    }
}

/// No layer of the stacks has a greater number, and one has this, unless there is none and
/// the number is 0.
pub open spec fn is_max_layer_id<V>(stacks: Stacks<V>, id: LayerId) -> bool {
    &&& forall|lens: Seq<char>, i: int|
        #![trigger stacks[lens][i]]
        stacks.contains_key(lens) && 0 <= i < stacks[lens].len() ==> stacks[lens][i].id <= id
    &&& id > 0 ==> exists|lens: Seq<char>, i: int|
        #![trigger stacks[lens][i]]
        stacks.contains_key(lens) && 0 <= i < stacks[lens].len() && stacks[lens][i].id == id
}

impl<V: Datum> Database<V> {
    /// A database that keeps nothing beyond the process.
    pub fn new(store: InMemory<V>) -> (r: Self)
        ensures
            r@ == (DatabaseV {
                stacks: store@,
                limits: store.limits(),
                log: None,
                compactions: 0,
                size: 0,
                max_bytes: None,
                events: Seq::empty(),
            }),
    {
        let r = Database {
            store,
            log: None,
            compactions: 0,
            size: 0,
            max_bytes: None,
            events: Vec::new(),
        };
        assert(r@.events =~= Seq::empty());
        r
    }

    /// A database whose log is the given one, and whose store has taken it in already.
    pub fn with_wal(store: InMemory<V>, log: Vec<Record<V>>) -> (r: Self)
        ensures
            r@ == (DatabaseV {
                stacks: store@,
                limits: store.limits(),
                log: Some(records_view(log@)),
                compactions: 0,
                size: 0,
                max_bytes: None,
                events: Seq::empty(),
            }),
    {
        let r = Database {
            store,
            log: Some(log),
            compactions: 0,
            size: 0,
            max_bytes: None,
            events: Vec::new(),
        };
        assert(r@.events =~= Seq::empty());
        r
    }

    /// Opens a database from its log.
    pub fn open(compact_threshold: usize, log: Vec<Record<V>>) -> (r: Self)
        requires
            log_wf(records_view(log@)),
        ensures
            r@ == (DatabaseV { stacks: r@.stacks, ..opened(compact_threshold, records_view(log@)) }),
            recoverable(r@),
    {
        let mut store: InMemory<V> = InMemory::with_threshold(compact_threshold);
        let ghost empty: DatabaseV<V> = DatabaseV {
            stacks: store@,
            limits: store.limits(),
            log: Some(Seq::empty()),
            compactions: 0,
            size: 0,
            max_bytes: None,
            events: Seq::empty(),
        };
        let mut i: usize = 0;
        while i < log.len()
            invariant
                i <= log@.len(),
                log_wf(records_view(log@)),
                store.limits() == (Limits { general: compact_threshold, own: Map::empty() }),
                told_by(records_view(log@.take(i as int)), store@),
            decreases log@.len() - i,
        {
            let ghost told = records_view(log@.take(i as int));
            let ghost stacks = store@;
            proof {
                assert(records_view(log@)[i as int] == log@[i as int]@);
                let next = records_view(log@.take(i + 1));
                assert(next.drop_last() =~= told);
                assert(next.last() == log@[i as int]@);
            }
            match &log[i] {
                Record::Schema(text) => {
                    proof {
                        lemma_told_schema(told, stacks, text@);
                        assert(records_view(log@.take(i + 1)) =~= told.push(RecordV::Schema(text@)));
                    }
                },
                Record::Layer(lens, layer) => {
                    let _ = store.append(lens.as_str(), layer.clone());
                    proof {
                        lemma_told_layer(told, stacks, lens@, *layer, store@, compact_threshold as nat);
                        assert(records_view(log@.take(i + 1)) =~= told.push(
                            RecordV::Layer(lens@, *layer),
                        ));
                    }
                },
                Record::Drop(lens) => {
                    store.drop_lens(lens.as_str());
                    proof {
                        assert(store.limits().own =~= Map::empty());
                        lemma_told_drop(told, stacks, lens@);
                        assert(records_view(log@.take(i + 1)) =~= told.push(RecordV::Drop(lens@)));
                    }
                },
            }
            i = i + 1;
        }
        assert(log@.take(log@.len() as int) =~= log@);
        Self::with_wal(store, log)
    }

    /// A copy that shares the layers.
    pub fn dup(&self) -> (r: Self)
        ensures
            r@ == self@,
    {
        let log: Option<Vec<Record<V>>> = match &self.log {
            Some(log) => {
                let mut copy: Vec<Record<V>> = Vec::new();
                let mut i: usize = 0;
                while i < log.len()
                    invariant
                        i <= log@.len(),
                        records_view(copy@) =~= records_view(log@.take(i as int)),
                    decreases log@.len() - i,
                {
                    let ghost before = copy@;
                    copy.push(log[i].dup());
                    proof {
                        assert(records_view(copy@) =~= records_view(before).push(log@[i as int]@));
                        assert(records_view(log@.take(i + 1)) =~= records_view(
                            log@.take(i as int),
                        ).push(log@[i as int]@));
                    }
                    i = i + 1;
                }
                assert(log@.take(log@.len() as int) =~= log@);
                Some(copy)
            },
            None => None,
        };
        let mut events: Vec<StoreEvent> = Vec::new();
        let mut k: usize = 0;
        while k < self.events.len()
            invariant
                k <= self.events@.len(),
                events@ =~= self.events@.take(k as int),
            decreases self.events@.len() - k,
        {
            events.push(self.events[k]);
            k = k + 1;
        }
        assert(events@ =~= self.events@);
        Database {
            store: self.store.dup(),
            log,
            compactions: self.compactions,
            size: self.size,
            max_bytes: self.max_bytes,
            events,
        }
    }

    /// Hands out what waits to be counted.
    pub fn take_events(&mut self) -> (r: Vec<StoreEvent>)
        ensures
            kinds(r@) == old(self)@.events,
            final(self)@ == (DatabaseV { events: Seq::empty(), ..old(self)@ }),
    {
        let mut events: Vec<StoreEvent> = Vec::new();
        core::mem::swap(&mut self.events, &mut events);
        assert(self@.events =~= Seq::empty());
        events
    }

    /// Has the log rewritten by the next append once it has reached `bytes`.
    pub fn set_wal_max_bytes(&mut self, bytes: u64)
        ensures
            final(self)@ == (DatabaseV {
                max_bytes: if old(self)@.log is Some {
                    Some(bytes)
                } else {
                    old(self)@.max_bytes
                },
                ..old(self)@
            }),
    {
        if self.log.is_some() {
            self.max_bytes = Some(bytes);
        }
    }

    /// Takes note of how large the log has become where it is kept.
    pub fn set_wal_size(&mut self, bytes: u64)
        ensures
            final(self)@ == (DatabaseV { size: bytes, ..old(self)@ }),
    {
        self.size = bytes;
    }

    /// The size of the log as last noted; 0 without a log.
    pub fn wal_size_bytes(&self) -> (r: u64)
        ensures
            r == if self@.log is Some {
                self@.size
            } else {
                0
            },
    {
        if self.log.is_some() {
            self.size
        } else {
            0
        }
    }

    fn write_record(&mut self, record: Record<V>, faults: &mut FaultInjector) -> (r: Result<
        (),
        String,
    >)
        ensures
            noted(
                old(self)@,
                old(faults).countdown as int,
                record@,
                r is Ok,
                final(self)@,
                final(faults).countdown as int,
            ),
            r matches Err(e) ==> e@ == INJECTED_WAL_WRITE_ERROR@,
            final(self).store == old(self).store,
    {
        if self.log.is_none() {
            return Ok(());
        }
        match faults.check_wal_write() {
            Err(e) => Err(e),
            Ok(()) => {
                let mut log: Option<Vec<Record<V>>> = None;
                core::mem::swap(&mut self.log, &mut log);
                if let Some(mut records) = log {
                    let ghost before = records@;
                    records.push(record);
                    assert(records_view(records@) =~= records_view(before).push(record@));
                    self.log = Some(records);
                }
                Ok(())
            },
        }
    }

    /// Puts a layer on top of a lens's stack, log first.
    pub fn append(&mut self, name: &str, layer: Layer<V>, faults: &mut FaultInjector) -> (r: Result<
        (),
        String,
    >)
        requires
            layer.wf(),
        ensures
            appended(
                old(self)@,
                old(faults).countdown as int,
                name@,
                layer,
                r is Ok,
                final(self)@,
                final(faults).countdown as int,
            ),
            r matches Err(e) ==> e@ == INJECTED_WAL_WRITE_ERROR@,
    {
        let record = Record::Layer(owned(name), layer.clone());
        let begun = moment();
        if let Err(e) = self.write_record(record, faults) {
            return Err(e);
        }
        let ghost written = self@;
        if self.log.is_some() {
            let ghost before = self.events@;
            let event = StoreEvent::LogWrite { ns: nanoseconds_since(&begun) };
            self.events.push(event);
            assert(kinds(self.events@) =~= kinds(before).push(EventKind::LogWrite));
        }
        let ghost logged = self@;
        assert(logged == with_write(written));
        let mut due: bool = match self.max_bytes {
            Some(m) => self.log.is_some() && self.size >= m,
            None => false,
        };
        let mut store: InMemory<V> = InMemory::new();
        core::mem::swap(&mut self.store, &mut store);
        let shorter: bool = store.append(name, layer);
        self.store = store;
        if shorter {
            let ghost before = self.events@;
            self.events.push(StoreEvent::Merge);
            assert(kinds(self.events@) =~= kinds(before).push(EventKind::Merge));
            self.compactions = if self.compactions < usize::MAX {
                self.compactions + 1
            } else {
                self.compactions
            };
            if self.compactions >= CHECKPOINT_COMPACTION_INTERVAL {
                due = true;
            }
        }
        if due {
            self.checkpoint();
        }
        Ok(())
    }

    /// Rewrites the log to its declarations and the layers that are still live.
    pub fn checkpoint(&mut self)
        ensures
            checkpointed(old(self)@, final(self)@),
    {
        self.compactions = 0;
        if self.log.is_none() {
            return ;
        }
        let mut log: Option<Vec<Record<V>>> = None;
        core::mem::swap(&mut self.log, &mut log);
        if let Some(records) = log {
            let mut kept: Vec<Record<V>> = Vec::new();
            let mut i: usize = 0;
            while i < records.len()
                invariant
                    i <= records@.len(),
                    records_view(kept@) =~= declarations(records_view(records@.take(i as int))),
                decreases records@.len() - i,
            {
                proof {
                    let next = records_view(records@.take(i + 1));
                    assert(next.drop_last() =~= records_view(records@.take(i as int)));
                    assert(next.last() == records@[i as int]@);
                }
                match &records[i] {
                    Record::Layer(_, _) => {},
                    record => kept.push(record.dup()),
                }
                i = i + 1;
            }
            assert(records@.take(records@.len() as int) =~= records@);
            let ghost base = records_view(kept@);
            let names = self.store.lens_names();
            let mut n: usize = 0;
            while n < names.len()
                invariant
                    n <= names@.len(),
                    lists_keys(names@, self.store@),
                    records_view(kept@) =~= base + live_records(
                        names@.take(n as int),
                        self.store@,
                    ),
                decreases names@.len() - n,
            {
                let name = names[n].as_str();
                proof {
                    assert(names@.take(n + 1).drop_last() =~= names@.take(n as int));
                    assert(listed(names@, name@));
                }
                if let Some(layers) = self.store.layers(name) {
                    push_stack(name, &layers, &mut kept);
                }
                n = n + 1;
            }
            assert(names@.take(names@.len() as int) =~= names@);
            assert(records_view(kept@) =~= declarations(records_view(records@)) + live_records(
                names@,
                self.store@,
            ));
            self.log = Some(kept);
        }
    }

    /// Forgets the layers of a lens.
    pub fn drop_lens(&mut self, name: &str)
        ensures
            final(self)@ == (DatabaseV {
                stacks: old(self)@.stacks.remove(name@),
                limits: Limits {
                    own: old(self)@.limits.own.remove(name@),
                    ..old(self)@.limits
                },
                ..old(self)@
            }),
    {
        let mut store: InMemory<V> = InMemory::new();
        core::mem::swap(&mut self.store, &mut store);
        store.drop_lens(name);
        self.store = store;
    }

    /// Notes a declaration in the log.
    pub fn append_schema(&mut self, text: &str, faults: &mut FaultInjector) -> (r: Result<
        (),
        String,
    >)
        ensures
            noted(
                old(self)@,
                old(faults).countdown as int,
                RecordV::Schema(text@),
                r is Ok,
                final(self)@,
                final(faults).countdown as int,
            ),
            r matches Err(e) ==> e@ == INJECTED_WAL_WRITE_ERROR@,
    {
        self.write_record(Record::Schema(owned(text)), faults)
    }

    /// Notes in the log that a lens is gone.
    pub fn append_drop(&mut self, name: &str, faults: &mut FaultInjector) -> (r: Result<(), String>)
        ensures
            noted(
                old(self)@,
                old(faults).countdown as int,
                RecordV::Drop(name@),
                r is Ok,
                final(self)@,
                final(faults).countdown as int,
            ),
            r matches Err(e) ==> e@ == INJECTED_WAL_WRITE_ERROR@,
    {
        self.write_record(Record::Drop(owned(name)), faults)
    }

    /// The declarations in the log, in the order in which they were made.
    pub fn schema_stmts(&self) -> (r: Vec<String>)
        ensures
            texts(r@) == match self@.log {
                Some(log) => schema_texts(log),
                None => Seq::empty(),
            },
    {
        let mut out: Vec<String> = Vec::new();
        assert(texts(out@) =~= Seq::empty());
        if let Some(log) = &self.log {
            let mut i: usize = 0;
            while i < log.len()
                invariant
                    i <= log@.len(),
                    texts(out@) =~= schema_texts(records_view(log@.take(i as int))),
                decreases log@.len() - i,
            {
                proof {
                    let next = records_view(log@.take(i + 1));
                    assert(next.drop_last() =~= records_view(log@.take(i as int)));
                    assert(next.last() == log@[i as int]@);
                }
                match &log[i] {
                    Record::Schema(text) => out.push(text.clone()),
                    Record::Drop(name) => out.push(drop_text(name.as_str())),
                    Record::Layer(_, _) => {},
                }
                i = i + 1;
            }
            assert(log@.take(log@.len() as int) =~= log@);
        }
        out
    }

    /// The highest layer number in the store; 0 where it has no layers.
    pub fn max_layer_id(&self) -> (r: LayerId)
        ensures
            is_max_layer_id(self@.stacks, r),
    {
        let names = self.store.lens_names();
        let ghost stacks = self.store@;
        let mut best: LayerId = 0;
        let mut n: usize = 0;
        while n < names.len()
            invariant
                n <= names@.len(),
                stacks == self.store@,
                lists_keys(names@, stacks),
                max_among(stacks, names@, n as int, 0, best),
            decreases names@.len() - n,
        {
            let name = names[n].as_str();
            proof {
                assert(listed(names@, name@));
            }
            if let Some(layers) = self.store.layers(name) {
                let mut i: usize = 0;
                while i < layers.len()
                    invariant
                        i <= layers@.len(),
                        n < names@.len(),
                        name@ == names@[n as int]@,
                        stacks.contains_key(name@),
                        layers@ == stacks[name@],
                        max_among(stacks, names@, n as int, i as int, best),
                    decreases layers@.len() - i,
                {
                    let id: u64 = layers[i].id;
                    assert(stacks[name@][i as int].id == id);
                    if id > best {
                        best = id;
                    }
                    i = i + 1;
                }
            }
            n = n + 1;
        }
        proof {
            assert forall|lens: Seq<char>, i: int|
                #![trigger stacks[lens][i]]
                stacks.contains_key(lens) && 0 <= i < stacks[lens].len() implies stacks[lens][i].id
                <= best by {
                assert(listed(names@, lens));
                let p = choose|p: int| 0 <= p < names@.len() && (#[trigger] names@[p])@ == lens;
                assert(stacks[names@[p]@][i].id <= best);
            }
        }
        best
    }

    /// The newest-wins value at a valid time.
    pub fn at_name(&self, name: &str, t: Timestamp) -> (r: Option<V>)
        ensures
            r == newest(stack_of(self@.stacks, name@), seq![t], None),
    {
        self.store.at(name, t)
    }

    /// The newest-wins value at a point, as of a transaction time where one is given.
    pub fn get(&self, name: &str, coords: &[Timestamp], as_of: Option<i64>) -> (r: Option<V>)
        ensures
            r == newest(stack_of(self@.stacks, name@), coords@, as_of),
    {
        self.store.get(name, coords, as_of)
    }

    /// The newest-wins values over a window of valid time, the other axes held at `fixed`.
    pub fn scan(
        &self,
        name: &str,
        start: Timestamp,
        end: Timestamp,
        fixed: &[Timestamp],
        as_of: Option<i64>,
    ) -> (r: Vec<Segment<V>>)
        ensures
            start >= end ==> r@.len() == 0,
            start < end ==> traces(
                r@,
                probe(stack_of(self@.stacks, name@), fixed@, as_of),
                start as int,
                end as int,
            ),
    {
        self.store.scan(name, start, end, fixed, as_of)
    }

    /// A snapshot of the stack of a lens; `None` where nothing was ever appended to it.
    pub fn layers(&self, lens: &str) -> (r: Option<Arc<Vec<Layer<V>>>>)
        ensures
            r is Some <==> self@.stacks.contains_key(lens@),
            r matches Some(stack) ==> stack@ == self@.stacks[lens@] && stack_wf(stack@),
    {
        self.store.layers(lens)
    }

    /// What is told of each layer of a lens, oldest first.
    pub fn layer_infos(&self, name: &str) -> (r: Vec<LayerInfo>)
        ensures
            r@ == stack_of(self@.stacks, name@).map_values(|l: Layer<V>| info_of(l)),
    {
        let ghost want = stack_of(self@.stacks, name@).map_values(|l: Layer<V>| info_of(l));
        let mut out: Vec<LayerInfo> = Vec::new();
        if let Some(stack) = self.store.layers(name) {
            let mut i: usize = 0;
            while i < stack.len()
                invariant
                    i <= stack@.len(),
                    stack@ == stack_of(self@.stacks, name@),
                    want == stack_of(self@.stacks, name@).map_values(|l: Layer<V>| info_of(l)),
                    out@ =~= want.take(i as int),
                decreases stack@.len() - i,
            {
                let layer = &stack[i];
                out.push(
                    LayerInfo {
                        id: layer.id,
                        written_at: layer.written_at,
                        min_start: layer.min_start,
                        max_end: layer.max_end,
                        tau_count: layer.taus.len(),
                    },
                );
                i = i + 1;
            }
        }
        assert(out@ =~= want);
        out
    }

    /// The lenses that have layers, in name order, each with its stack.
    pub fn export_layers(&self) -> (r: Vec<(String, Arc<Vec<Layer<V>>>)>)
        ensures
            lists_keys(r@.map_values(|p: (String, Arc<Vec<Layer<V>>>)| p.0), self@.stacks),
            forall|i: int|
                0 <= i < r@.len() ==> (#[trigger] r@[i]).1@ == self@.stacks[r@[i].0@],
    {
        let names = self.store.lens_names();
        let mut out: Vec<(String, Arc<Vec<Layer<V>>>)> = Vec::new();
        let mut i: usize = 0;
        while i < names.len()
            invariant
                i <= names@.len(),
                lists_keys(names@, self@.stacks),
                out@.len() == i,
                forall|k: int|
                    0 <= k < i ==> (#[trigger] out@[k]).0 == names@[k] && out@[k].1@
                        == self@.stacks[names@[k]@],
            decreases names@.len() - i,
        {
            assert(listed(names@, names@[i as int]@));
            if let Some(stack) = self.store.layers(names[i].as_str()) {
                out.push((names[i].clone(), stack));
            }
            i = i + 1;
        }
        assert(out@.map_values(|p: (String, Arc<Vec<Layer<V>>>)| p.0) =~= names@);
        out
    }
}

/// Every layer of the log is well formed.
pub open spec fn log_wf<V>(log: Seq<RecordV<V>>) -> bool {
    forall|i: int|
        0 <= i < log.len() ==> ((#[trigger] log[i]) matches RecordV::Layer(_, layer) ==> layer.wf())
}

/// What opening a log gives, but for the stacks.
pub open spec fn opened<V>(compact_threshold: usize, log: Seq<RecordV<V>>) -> DatabaseV<V> {
    DatabaseV {
        stacks: Map::empty(),
        limits: Limits { general: compact_threshold, own: Map::empty() },
        log: Some(log),
        compactions: 0,
        size: 0,
        max_bytes: None,
        events: Seq::empty(),
    }
}

/// A log tells of every value that the stacks hold.
pub open spec fn told_by<V: Datum>(log: Seq<RecordV<V>>, stacks: Stacks<V>) -> bool {
    forall|lens: Seq<char>, ts: Seq<Timestamp>, as_of: Option<i64>|
        agree(
            #[trigger] newest(logged_stack(log, lens), ts, as_of),
            newest(stack_of(stacks, lens), ts, as_of),
        )
}

/// A layer appended to both keeps it so.
pub proof fn lemma_told_layer<V: Datum>(
    log: Seq<RecordV<V>>,
    stacks: Stacks<V>,
    lens: Seq<char>,
    layer: Layer<V>,
    after: Stacks<V>,
    threshold: nat,
)
    requires
        told_by(log, stacks),
        grown(stack_of(stacks, lens), layer, threshold, stack_of(after, lens)),
        after == stacks.insert(lens, stack_of(after, lens)),
    ensures
        told_by(log.push(RecordV::Layer(lens, layer)), after),
{
    let longer = log.push(RecordV::Layer(lens, layer));
    assert(longer.drop_last() =~= log);
    let top = stack_of(after, lens);
    assert forall|l: Seq<char>, ts: Seq<Timestamp>, as_of: Option<i64>| agree(
        #[trigger] newest(logged_stack(longer, l), ts, as_of),
        newest(stack_of(after, l), ts, as_of),
    ) by {
        let told = logged_stack(log, l);
        let held = stack_of(stacks, l);
        assert(agree(newest(told, ts, as_of), newest(held, ts, as_of)));
        if l == lens {
            assert(told.push(layer).drop_last() =~= told);
            assert(held.push(layer).drop_last() =~= held);
            law_append_is_seen(held, layer, threshold, top, ts, as_of);
            lemma_agree_chain(
                newest(told.push(layer), ts, as_of),
                newest(held.push(layer), ts, as_of),
                newest(top, ts, as_of),
            );
        }
    }
}

/// A lens dropped from both keeps it so.
pub proof fn lemma_told_drop<V: Datum>(log: Seq<RecordV<V>>, stacks: Stacks<V>, lens: Seq<char>)
    requires
        told_by(log, stacks),
    ensures
        told_by(log.push(RecordV::Drop(lens)), stacks.remove(lens)),
{
    let next = log.push(RecordV::Drop(lens));
    assert(next.drop_last() =~= log);
    assert forall|l: Seq<char>, ts: Seq<Timestamp>, as_of: Option<i64>| agree(
        #[trigger] newest(logged_stack(next, l), ts, as_of),
        newest(stack_of(stacks.remove(lens), l), ts, as_of),
    ) by {
        assert(agree(
            newest(logged_stack(log, l), ts, as_of),
            newest(stack_of(stacks, l), ts, as_of),
        ));
    }
}

/// A declaration changes no stack.
pub proof fn lemma_told_schema<V: Datum>(log: Seq<RecordV<V>>, stacks: Stacks<V>, text: Seq<char>)
    requires
        told_by(log, stacks),
    ensures
        told_by(log.push(RecordV::Schema(text)), stacks),
{
    let next = log.push(RecordV::Schema(text));
    assert(next.drop_last() =~= log);
    assert forall|l: Seq<char>, ts: Seq<Timestamp>, as_of: Option<i64>| agree(
        #[trigger] newest(logged_stack(next, l), ts, as_of),
        newest(stack_of(stacks, l), ts, as_of),
    ) by {
        assert(agree(
            newest(logged_stack(log, l), ts, as_of),
            newest(stack_of(stacks, l), ts, as_of),
        ));
    }
}

pub open spec fn texts(lines: Seq<String>) -> Seq<Seq<char>> {
    lines.map_values(|s: String| s@)
}

/// The statements of the declarations in a log.
pub open spec fn schema_texts<V>(log: Seq<RecordV<V>>) -> Seq<Seq<char>>
    decreases log.len(),
{
    if log.len() == 0 {
        Seq::empty()
    } else {
        let front = schema_texts(log.drop_last());
        match log.last() {
            RecordV::Schema(text) => front.push(text),
            RecordV::Drop(name) => front.push(schema_text_of(StmtV::Drop { name })->Some_0),
            RecordV::Layer(_, _) => front,
        }
    }
}

pub fn push_stack<V>(name: &str, layers: &Vec<Layer<V>>, out: &mut Vec<Record<V>>)
    ensures
        records_view(final(out)@) == records_view(old(out)@) + stack_records(name@, layers@),
{
    let ghost before = records_view(out@);
    let mut i: usize = 0;
    assert(records_view(out@) =~= before + stack_records(name@, layers@.take(0)));
    while i < layers.len()
        invariant
            i <= layers@.len(),
            records_view(out@) =~= before + stack_records(name@, layers@.take(i as int)),
        decreases layers@.len() - i,
    {
        let ghost sofar = out@;
        let record = Record::Layer(owned(name), layers[i].clone());
        out.push(record);
        proof {
            assert(records_view(out@) =~= records_view(sofar).push(record@));
            assert(stack_records(name@, layers@.take(i + 1)) =~= stack_records(
                name@,
                layers@.take(i as int),
            ).push(record@));
        }
        i = i + 1;
    }
    assert(layers@.take(layers@.len() as int) =~= layers@);
}

/// The greatest number among the layers of the first `n` lenses and the first `k` layers
/// of the lens after them.
spec fn max_among<V>(stacks: Stacks<V>, names: Seq<String>, n: int, k: int, best: LayerId) -> bool {
    &&& forall|p: int, i: int|
        #![trigger stacks[names[p]@][i]]
        0 <= p < names.len() && (p < n || (p == n && i < k)) && 0 <= i < stacks[names[p]@].len()
            ==> stacks[names[p]@][i].id <= best
    &&& best > 0 ==> exists|lens: Seq<char>, i: int|
        #![trigger stacks[lens][i]]
        stacks.contains_key(lens) && 0 <= i < stacks[lens].len() && stacks[lens][i].id == best
}

/// An append leaves every other lens alone.
pub proof fn law_lenses_are_independent<V: Datum>(
    db: DatabaseV<V>,
    faults: int,
    lens: Seq<char>,
    layer: Layer<V>,
    ok: bool,
    after: DatabaseV<V>,
    faults_after: int,
    other: Seq<char>,
)
    requires
        appended(db, faults, lens, layer, ok, after, faults_after),
        other != lens,
    ensures
        stack_of(after.stacks, other) == stack_of(db.stacks, other),
{
}

} // verus!
