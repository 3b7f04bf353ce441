//! Opening a database that is kept on disk: what its store of runs and its log tell.

use crate::ast::{Stmt, StmtV};
use crate::database::{
    declarations, lemma_live_records_tell, live_records, log_wf, logged_stack, push_stack,
    records_view, told_by, DatabaseV, Record, RecordV,
};
use crate::durability::{law_lookup_sees_all_layers, run_sound};
use crate::inputs::Inputs;
use crate::layers::{agree, newest};
use crate::memory::{stack_of, Stacks};
use crate::model::Timestamp;
use crate::names::{listed, lists_keys};
use crate::parser::{parse, statement};
use crate::recovery::rebuilt;
use crate::sstable::{combined, every_run, store_answers, Sstable, StoreV};
use crate::state::{DbState, StateV};
use crate::text::owned;
use crate::value::Value;
use vstd::prelude::*;

verus! {

/// What a line of a store's schema says: that a lens is dropped, or a declaration.
pub open spec fn line_record(text: Seq<char>) -> RecordV<Value> {
    match statement(text) {
        Some((StmtV::Drop { name }, _)) => RecordV::Drop(name),
        _ => RecordV::Schema(text),
    }
}

/// The schema of a store, where the log tells of none.
pub open spec fn store_schema(v: StoreV<Value>, wal: Seq<RecordV<Value>>) -> Seq<RecordV<Value>> {
    if declarations(wal).len() == 0 {
        v.schema.map_values(|text: Seq<char>| line_record(text))
    } else {
        Seq::empty()
    }
}

/// `stacks` holds all layers of every lens of the store.
pub open spec fn holds_stacks(v: StoreV<Value>, stacks: Stacks<Value>) -> bool {
    forall|lens: Seq<char>| #[trigger]
        v.live.contains_key(lens) ==> stacks.contains_key(lens) && combined(
            v,
            lens,
            every_run(),
            stacks[lens],
        )
}

/// `log` tells of a store and of what was logged since: the schema, the layers of the
/// store, then the log.
pub open spec fn tells_store(
    v: StoreV<Value>,
    wal: Seq<RecordV<Value>>,
    names: Seq<String>,
    stacks: Stacks<Value>,
    log: Seq<RecordV<Value>>,
) -> bool {
    &&& lists_keys(names, v.live)
    &&& holds_stacks(v, stacks)
    &&& log == store_schema(v, wal) + live_records(names, stacks) + wal
}

pub open spec fn told_of_store(
    v: StoreV<Value>,
    wal: Seq<RecordV<Value>>,
    log: Seq<RecordV<Value>>,
) -> bool {
    exists|names: Seq<String>, stacks: Stacks<Value>| #[trigger]
        tells_store(v, wal, names, stacks, log)
}

fn read_line(text: &str) -> (r: Record<Value>)
    ensures
        r@ == line_record(text@),
{
    match parse(text) {
        Ok((_, Stmt::Drop { name })) => Record::Drop(name),
        _ => Record::Schema(owned(text)),
    }
}

fn tells_schema(log: &Vec<Record<Value>>) -> (r: bool)
    ensures
        r == (declarations(records_view(log@)).len() > 0),
{
    let ghost all = records_view(log@);
    let mut i: usize = 0;
    assert(all.take(0) =~= Seq::empty());
    while i < log.len()
        invariant
            i <= log@.len(),
            all == records_view(log@),
            declarations(all.take(i as int)).len() == 0,
        decreases log@.len() - i,
    {
        proof {
            assert(all.take(i + 1).drop_last() =~= all.take(i as int));
            assert(all.take(i + 1).last() == log@[i as int]@);
        }
        match &log[i] {
            Record::Layer(_, _) => {},
            _ => {
                proof {
                    lemma_declared(all, i as int);
                }
                return true;
            },
        }
        i = i + 1;
    }
    assert(all.take(log@.len() as int) =~= all);
    false
}

/// A log with a declaration in it tells of one.
proof fn lemma_declared(log: Seq<RecordV<Value>>, i: int)
    requires
        0 <= i < log.len(),
        !(log[i] is Layer),
    ensures
        declarations(log).len() > 0,
    decreases log.len(),
{
    if i < log.len() - 1 {
        lemma_declared(log.drop_last(), i);
    }
}

/// The log that a store and what was logged since amount to.
pub fn disk_records(store: &Sstable<Value>, wal: Vec<Record<Value>>) -> (r: Vec<Record<Value>>)
    requires
        store@.wf(),
        log_wf(records_view(wal@)),
    ensures
        told_of_store(store@, records_view(wal@), records_view(r@)),
        log_wf(records_view(r@)),
{
    let ghost v = store@;
    let ghost later = records_view(wal@);
    let mut out: Vec<Record<Value>> = Vec::new();
    let bare: bool = !tells_schema(&wal);
    let lines = store.schema_stmts();
    if bare {
        let mut i: usize = 0;
        while i < lines.len()
            invariant
                i <= lines@.len(),
                out@.len() == i,
                forall|k: int|
                    0 <= k < i ==> (#[trigger] out@[k])@ == line_record(lines@[k]@),
            decreases lines@.len() - i,
        {
            out.push(read_line(lines[i].as_str()));
            i = i + 1;
        }
    }
    proof {
        assert(crate::manifest::texts_of(lines@) =~= v.schema);
        assert(records_view(out@) =~= store_schema(v, later)) by {
            assert forall|k: int| 0 <= k < out@.len() implies records_view(out@)[k]
                == store_schema(v, later)[k] by {
                assert(v.schema[k] == lines@[k]@);
            }
        }
    }
    let ghost head = records_view(out@);
    let names = store.lens_names();
    let ghost mut stacks: Stacks<Value> = Map::empty();
    let mut j: usize = 0;
    proof {
        assert(names@.take(0) =~= Seq::empty());
        assert(head + live_records(names@.take(0), stacks) =~= head);
    }
    while j < names.len()
        invariant
            j <= names@.len(),
            v == store@,
            store@.wf(),
            lists_keys(names@, v.live),
            records_view(out@) == head + live_records(names@.take(j as int), stacks),
            forall|k: int|
                0 <= k < j ==> stacks.contains_key((#[trigger] names@[k])@) && combined(
                    v,
                    names@[k]@,
                    every_run(),
                    stacks[names@[k]@],
                ),
            forall|lens: Seq<char>| #[trigger]
                stacks.contains_key(lens) ==> exists|k: int|
                    0 <= k < j && (#[trigger] names@[k])@ == lens,
            log_wf(head),
            log_wf(records_view(out@)),
        decreases names@.len() - j,
    {
        let lens = names[j].as_str();
        assert(listed(names@, names@[j as int]@));
        if let Some(stack) = store.layers(lens) {
            let ghost before = records_view(out@);
            push_stack(lens, &stack, &mut out);
            proof {
                let next = stacks.insert(lens@, stack@);
                let front = names@.take(j as int);
                let more = names@.take(j + 1);
                assert(more.drop_last() =~= front);
                assert(more.last() == names@[j as int]);
                assert forall|k: int| 0 <= k < front.len() implies (#[trigger] front[k])@
                    != lens@ by {
                    assert(front[k] == names@[k]);
                    assert(names@[k]@ == names@[j as int]@ ==> k == j);
                }
                lemma_live_records_same(front, stacks, next);
                assert(records_view(out@) =~= head + live_records(more, next));
                let done = records_view(out@);
                assert forall|i: int| 0 <= i < done.len() implies ((
                #[trigger] done[i]) matches RecordV::Layer(_, layer) ==> layer.wf()) by {
                    if i < before.len() {
                        assert(done[i] == before[i]);
                    } else {
                        assert(stack@[i - before.len()].wf());
                    }
                }
                stacks = next;
            }
        }
        j = j + 1;
    }
    proof {
        assert(names@.take(names@.len() as int) =~= names@);
        assert forall|lens: Seq<char>| #[trigger] v.live.contains_key(lens) implies stacks.contains_key(
            lens,
        ) && combined(v, lens, every_run(), stacks[lens]) by {
            assert(listed(names@, lens));
        }
    }
    let ghost body = records_view(out@);
    let mut wal = wal;
    let ghost rest = wal@;
    out.append(&mut wal);
    proof {
        let all = records_view(out@);
        assert(all =~= body + records_view(rest));
        assert forall|i: int| 0 <= i < all.len() implies ((
        #[trigger] all[i]) matches RecordV::Layer(_, layer) ==> layer.wf()) by {
            if i < body.len() {
                assert(all[i] == body[i]);
            } else {
                assert(all[i] == later[i - body.len()]);
            }
        }
        assert(tells_store(v, later, names@, stacks, all));
    }
    out
}

/// The records of some lenses do not depend on the layers of others.
proof fn lemma_live_records_same(names: Seq<String>, a: Stacks<Value>, b: Stacks<Value>)
    requires
        forall|k: int|
            0 <= k < names.len() ==> stack_of(a, (#[trigger] names[k])@) == stack_of(b, names[k]@),
    ensures
        live_records(names, a) == live_records(names, b),
    decreases names.len(),
{
    if names.len() > 0 {
        let front = names.drop_last();
        assert forall|k: int| 0 <= k < front.len() implies stack_of(a, (#[trigger] front[k])@)
            == stack_of(b, front[k]@) by {
            assert(front[k] == names[k]);
        }
        lemma_live_records_same(front, a, b);
        assert(names.last() == names[names.len() - 1]);
    }
}

impl DbState {
    /// Opens a database that is kept on disk from its store of runs and its log.
    pub fn with_disk(
        store: &Sstable<Value>,
        wal: Vec<Record<Value>>,
        compact_threshold: usize,
        inputs: &Inputs,
    ) -> (r: Self)
        requires
            store@.wf(),
            log_wf(records_view(wal@)),
        ensures
            r@.wf(),
            r@.db.log is Some,
            told_of_store(store@, records_view(wal@), r@.db.log->Some_0),
            told_by(r@.db.log->Some_0, r@.db.stacks),
            exists|bare: StateV| #[trigger]
                rebuilt(r@.db.log->Some_0, compact_threshold, inputs, bare) && r@ == (StateV {
                    db: DatabaseV { log: r@.db.log, ..bare.db },
                    ..bare
                }),
    {
        let log = disk_records(store, wal);
        Self::with_wal(compact_threshold, log, inputs)
    }
}

/// A database that is opened from its store, with nothing logged since, answers every
/// lookup as the store does.
pub proof fn law_opened_store_answers_alike(
    v: StoreV<Value>,
    log: Seq<RecordV<Value>>,
    opened: StateV,
    lens: Seq<char>,
    ts: Seq<Timestamp>,
    as_of: Option<i64>,
    r: Option<Value>,
)
    requires
        told_of_store(v, Seq::empty(), log),
        told_by(log, opened.db.stacks),
        v.live.contains_key(lens),
        forall|i: int| 0 <= i < v.runs.len() ==> run_sound(#[trigger] v.runs[i]),
        ts.len() > 0,
        store_answers(v, lens, ts, as_of, r),
    ensures
        agree(r, newest(stack_of(opened.db.stacks, lens), ts, as_of)),
{
    let wal = Seq::<RecordV<Value>>::empty();
    let (names, stacks) = choose|names: Seq<String>, stacks: Stacks<Value>| #[trigger]
        tells_store(v, wal, names, stacks, log);
    let schema = store_schema(v, wal);
    assert(log =~= schema + live_records(names, stacks));
    lemma_schema_silent(schema, lens);
    lemma_live_records_tell(schema, names, stacks, lens);
    assert(listed(names, lens));
    law_lookup_sees_all_layers(v, lens, ts, as_of, r, stacks[lens]);
    assert(logged_stack(log, lens) == stacks[lens]);
    assert(agree(
        newest(logged_stack(log, lens), ts, as_of),
        newest(stack_of(opened.db.stacks, lens), ts, as_of),
    ));
}

/// Records that are no layers tell of no layer.
proof fn lemma_schema_silent(log: Seq<RecordV<Value>>, lens: Seq<char>)
    requires
        forall|i: int| 0 <= i < log.len() ==> !((#[trigger] log[i]) is Layer),
    ensures
        logged_stack(log, lens).len() == 0,
    decreases log.len(),
{
    if log.len() > 0 {
        assert(!(log[log.len() - 1] is Layer));
        lemma_schema_silent(log.drop_last(), lens);
    }
}

} // verus!
