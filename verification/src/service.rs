//! The databases of a server, and the transaction that may be open on them.

use crate::ast::{is_transactable, opt_text, Stmt};
use crate::change::shown;
use crate::database::{
    kinds, records_view, DatabaseV, EventKind, Record, RecordV, StoreEvent,
};
use crate::error::{ExecError, ExecErrorV};
use crate::exact::{share, Exact};
use crate::faults::FaultInjector;
use crate::inputs::Inputs;
use crate::names::{in_name_order, listed, lists_keys, NameMap};
use crate::recovery::{backs_up, empty_state, rebuilt};
use crate::state::{
    is_undone, law_failed_statement_changes_nothing, lens_changed, log_failure, note, writes_rows,
    DbState, StateV, World,
};
use crate::text::{owned, same_text};
use crate::value::Value;
use std::sync::Arc;
use vstd::prelude::*;

verus! {

/// Where new databases keep their layers.
#[derive(Debug, Clone, PartialEq)]
pub enum StorageBackend {
    /// Nothing outlives the process.
    Memory,
    /// Every change is logged in a directory, and `CREATE DATABASE` takes up a log that is
    /// found there.
    Disk {
        dir: String,
        compression_level: i32,
        enc_key: Option<[u8; 32]>,
        wal_fsync_each: bool,
        wal_max_bytes: Option<u64>,
    },
}

/// A statement put off until `COMMIT`, and the database that was active.
pub type PendingStmt = (Option<String>, Arc<Stmt>);

pub type PendingV = (Option<Seq<char>>, Stmt);

/// A backup that is to be written to a path.
pub type Backup = (String, Vec<Record<Value>>);

pub type BackupV = (Seq<char>, Seq<RecordV<Value>>);

/// The named databases and which of them is active.
#[derive(Debug)]
pub struct Registry {
    pub databases: NameMap<DbState>,
    pub active: Option<String>,
}

/// The service that changes databases.
#[derive(Debug)]
pub struct DbService {
    pub registry: Registry,
    /// The statements of the open transaction; `None` where none is open.
    pub pending: Option<Vec<PendingStmt>>,
    pub compact_threshold: usize,
    pub backend: StorageBackend,
    pub faults: FaultInjector,
    /// Backups made and still to be written.
    pub outbox: Vec<Backup>,
}

#[verifier::ext_equal]
pub struct ServiceV {
    pub databases: Map<Seq<char>, StateV>,
    pub active: Option<Seq<char>>,
    pub pending: Option<Seq<PendingV>>,
    pub faults: int,
    pub outbox: Seq<BackupV>,
}

pub open spec fn pending_view(p: Seq<PendingStmt>) -> Seq<PendingV> {
    p.map_values(|e: PendingStmt| (opt_text(e.0), *e.1))
}

pub open spec fn outbox_view(b: Seq<Backup>) -> Seq<BackupV> {
    b.map_values(|e: Backup| (e.0@, records_view(e.1@)))
}

impl View for DbService {
    type V = ServiceV;

    open spec fn view(&self) -> ServiceV {
        ServiceV {
            databases: self.registry.databases@.map_values(|d: DbState| d@),
            active: opt_text(self.registry.active),
            pending: match self.pending {
                Some(p) => Some(pending_view(p@)),
                None => None,
            },
            faults: self.faults.countdown as int,
            outbox: outbox_view(self.outbox@),
        }
    }
}

impl ServiceV {
    /// Every database is well formed.
    pub open spec fn wf(self) -> bool {
        forall|name: Seq<char>| #[trigger]
            self.databases.contains_key(name) ==> self.databases[name].wf()
    }
}

/// The state of the named database, if there is such a one.
pub open spec fn database_of(v: ServiceV, name: Option<Seq<char>>) -> Result<StateV, ExecErrorV> {
    match name {
        None => Err(ExecErrorV::NoActiveDatabase),
        Some(name) => if v.databases.contains_key(name) {
            Ok(v.databases[name])
        } else {
            Err(ExecErrorV::UnknownDatabase(name))
        },
    }
}

/// A lens statement executed on a database, which must be there.
pub open spec fn on_database(
    v: ServiceV,
    name: Option<Seq<char>>,
    stmt: &Stmt,
    inputs: &Inputs,
    r: Result<(), ExecErrorV>,
    after: ServiceV,
) -> bool {
    match database_of(v, name) {
        Err(e) => r == Err::<(), ExecErrorV>(e) && after == v,
        Ok(state) => exists|w: World| #[trigger]
            lens_changed(World { state, faults: v.faults }, stmt, false, inputs, r, w) && after
                == (ServiceV {
                databases: v.databases.insert(name->Some_0, w.state),
                faults: w.faults,
                ..v
            }),
    }
}

/// A run of `COMMIT`: the statements executed, their results and the states between.
pub struct Run {
    pub states: Seq<ServiceV>,
    pub results: Seq<Result<(), ExecErrorV>>,
}

/// The statements of a transaction executed in turn, each on the database that was active
/// when it was put off, up to the first that fails.
pub open spec fn ran(v: ServiceV, entries: Seq<PendingV>, inputs: &Inputs, run: Run) -> bool {
    &&& run.states.len() == run.results.len() + 1
    &&& run.results.len() <= entries.len()
    &&& run.states[0] == v
    &&& forall|i: int, j: int|
        #![trigger run.states[i], run.states[j]]
        0 <= i < run.results.len() && j == i + 1 ==> on_database(
            run.states[i],
            entries[i].0,
            &entries[i].1,
            inputs,
            run.results[i],
            run.states[j],
        )
    &&& forall|i: int| 0 <= i < run.results.len() - 1 ==> (#[trigger] run.results[i]) is Ok
    &&& run.results.len() < entries.len() ==> run.results.len() > 0 && run.results.last() is Err
}

/// `COMMIT`. Where a statement of the transaction fails, no database is changed.
pub open spec fn committed(
    v: ServiceV,
    inputs: &Inputs,
    r: Result<(), ExecErrorV>,
    after: ServiceV,
) -> bool {
    match v.pending {
        None => r == Err::<(), ExecErrorV>(ExecErrorV::NoActiveTransaction) && after == v,
        Some(entries) => exists|run: Run| #[trigger]
            ran(ServiceV { pending: None, ..v }, entries, inputs, run) && after == if r is Ok {
                run.states.last()
            } else {
                ServiceV { databases: v.databases, ..run.states.last() }
            } && r == if run.results.len() > 0 {
                run.results.last()
            } else {
                Ok(())
            },
    }
}

/// The state that a new database starts with.
pub open spec fn fresh_state(compact_threshold: usize, logged: bool, max_bytes: Option<u64>) -> StateV {
    let empty = empty_state(compact_threshold);
    StateV {
        db: DatabaseV {
            log: if logged {
                Some(Seq::empty())
            } else {
                None
            },
            max_bytes: if logged {
                max_bytes
            } else {
                None
            },
            ..empty.db
        },
        ..empty
    }
}

pub open spec fn logs_changes(backend: StorageBackend) -> bool {
    backend is Disk
}

pub open spec fn log_limit(backend: StorageBackend) -> Option<u64> {
    match backend {
        StorageBackend::Memory => None,
        StorageBackend::Disk { wal_max_bytes, .. } => wal_max_bytes,
    }
}

/// What a new database starts with: nothing, or what its log says.
pub open spec fn starts_with(
    threshold: usize,
    backend: StorageBackend,
    name: Seq<char>,
    inputs: &Inputs,
    state: StateV,
) -> bool {
    if backend is Disk && inputs.logs@.contains_key(name) {
        let log = records_view(inputs.logs@[name]@);
        exists|bare: StateV| #[trigger]
            rebuilt(log, threshold, inputs, bare) && state == (StateV {
                db: DatabaseV { log: Some(log), max_bytes: log_limit(backend), ..bare.db },
                ..bare
            })
    } else {
        state == fresh_state(threshold, logs_changes(backend), log_limit(backend))
    }
}

/// `CREATE DATABASE`. The first database created while none is active becomes active.
pub open spec fn database_created(
    v: ServiceV,
    threshold: usize,
    backend: StorageBackend,
    name: Seq<char>,
    inputs: &Inputs,
    r: Result<(), ExecErrorV>,
    after: ServiceV,
) -> bool {
    if v.databases.contains_key(name) {
        r == Err::<(), ExecErrorV>(ExecErrorV::DuplicateDatabase(name)) && after == v
    } else {
        r is Ok && exists|state: StateV| #[trigger]
            starts_with(threshold, backend, name, inputs, state) && after == (ServiceV {
                databases: v.databases.insert(name, state),
                active: if v.active is None {
                    Some(name)
                } else {
                    v.active
                },
                ..v
            })
    }
}

/// `DROP DATABASE`. Dropping the active database leaves none active.
pub open spec fn drop_database_of(v: ServiceV, name: Seq<char>) -> (Result<(), ExecErrorV>, ServiceV) {
    if !v.databases.contains_key(name) {
        (Err(ExecErrorV::UnknownDatabase(name)), v)
    } else {
        (
            Ok(()),
            ServiceV {
                databases: v.databases.remove(name),
                active: if v.active == Some(name) {
                    None
                } else {
                    v.active
                },
                ..v
            },
        )
    }
}

/// `USE DATABASE`.
pub open spec fn use_database_of(v: ServiceV, name: Seq<char>) -> (Result<(), ExecErrorV>, ServiceV) {
    if !v.databases.contains_key(name) {
        (Err(ExecErrorV::UnknownDatabase(name)), v)
    } else {
        (Ok(()), ServiceV { active: Some(name), ..v })
    }
}

/// A declaration noted in the log of the active database, where there is one: whether that
/// succeeds, and what it leaves.
pub open spec fn noted_on_active(v: ServiceV, record: RecordV<Value>) -> (bool, ServiceV) {
    match database_of(v, v.active) {
        Err(_) => (true, v),
        Ok(state) => {
            let (ok, w) = note(World { state, faults: v.faults }, record);
            (
                ok,
                ServiceV {
                    databases: v.databases.insert(v.active->Some_0, w.state),
                    faults: w.faults,
                    ..v
                },
            )
        },
    }
}

/// `BACKUP DATABASE`.
pub open spec fn backed_up(
    v: ServiceV,
    name: Seq<char>,
    path: Seq<char>,
    r: Result<(), ExecErrorV>,
    after: ServiceV,
) -> bool {
    if !v.databases.contains_key(name) {
        r == Err::<(), ExecErrorV>(ExecErrorV::UnknownDatabase(name)) && after == v
    } else {
        r is Ok && exists|log: Seq<RecordV<Value>>| #[trigger]
            backs_up(v.databases[name], log) && after == (ServiceV {
                outbox: v.outbox.push((path, log)),
                ..v
            })
    }
}

/// `RESTORE DATABASE`. The restored database logs nothing and does not become active.
pub open spec fn restored(
    v: ServiceV,
    threshold: usize,
    name: Seq<char>,
    path: Seq<char>,
    inputs: &Inputs,
    r: Result<(), ExecErrorV>,
    after: ServiceV,
) -> bool {
    if v.databases.contains_key(name) {
        r == Err::<(), ExecErrorV>(ExecErrorV::DuplicateDatabase(name)) && after == v
    } else if !inputs.backups@.contains_key(path) {
        r == Err::<(), ExecErrorV>(ExecErrorV::PendingFile(path)) && after == v
    } else {
        match inputs.backups@[path] {
            Err(why) => r == Err::<(), ExecErrorV>(ExecErrorV::Io(why@)) && after == v,
            Ok(log) => r is Ok && exists|state: StateV| #[trigger]
                rebuilt(records_view(log@), threshold, inputs, state) && after == (ServiceV {
                    databases: v.databases.insert(name, state),
                    ..v
                }),
        }
    }
}

/// What a statement that changes something does. While a transaction is open, statements
/// on lenses are put off.
pub open spec fn served(
    v: ServiceV,
    threshold: usize,
    backend: StorageBackend,
    stmt: &Stmt,
    inputs: &Inputs,
    r: Result<(), ExecErrorV>,
    after: ServiceV,
) -> bool {
    if v.pending is Some && stmt.lens_change() {
        r is Ok && after == (ServiceV {
            pending: Some(v.pending->Some_0.push((v.active, *stmt))),
            ..v
        })
    } else {
        match *stmt {
            Stmt::StartTransaction => if v.pending is Some {
                r == Err::<(), ExecErrorV>(ExecErrorV::TransactionAlreadyActive) && after == v
            } else {
                r is Ok && after == (ServiceV { pending: Some(Seq::empty()), ..v })
            },
            Stmt::Commit => committed(v, inputs, r, after),
            Stmt::Rollback => if v.pending is None {
                r == Err::<(), ExecErrorV>(ExecErrorV::NoActiveTransaction) && after == v
            } else {
                r is Ok && after == (ServiceV { pending: None, ..v })
            },
            Stmt::CreateDatabase { name } => database_created(
                v,
                threshold,
                backend,
                name@,
                inputs,
                r,
                after,
            ),
            Stmt::DropDatabase { name } => (r, after) == drop_database_of(v, name@),
            Stmt::UseDatabase { name } => (r, after) == use_database_of(v, name@),
            Stmt::BackupDatabase { name, path } => backed_up(v, name@, path@, r, after),
            Stmt::RestoreDatabase { name, path } => restored(
                v,
                threshold,
                name@,
                path@,
                inputs,
                r,
                after,
            ),
            _ => if stmt.lens_change() {
                on_database(v, v.active, stmt, inputs, r, after)
            } else {
                r == Err::<(), ExecErrorV>(
                    ExecErrorV::InvalidExpr("db service: not a mutating statement"@),
                ) && after == v
            },
        }
    }
}

/// As `served`, but where the statement waits for an input everything stays as it was.
pub open spec fn executed(
    v: ServiceV,
    threshold: usize,
    backend: StorageBackend,
    stmt: &Stmt,
    inputs: &Inputs,
    r: Result<(), ExecErrorV>,
    after: ServiceV,
) -> bool {
    if r is Err && r->Err_0.wants_input() {
        after == v && exists|tried: ServiceV| #[trigger]
            served(v, threshold, backend, stmt, inputs, r, tried)
    } else {
        served(v, threshold, backend, stmt, inputs, r, after)
    }
}

pub open spec fn databases_view(m: Map<Seq<char>, DbState>) -> Map<Seq<char>, StateV> {
    m.map_values(|d: DbState| d@)
}

/// A copy of databases that shares their layers.
pub fn copy_databases(databases: &NameMap<DbState>) -> (r: NameMap<DbState>)
    ensures
        databases_view(r@) == databases_view(databases@),
{
    let names = databases.names();
    let mut out: NameMap<DbState> = NameMap::new();
    let mut i: usize = 0;
    while i < names.len()
        invariant
            i <= names@.len(),
            lists_keys(names@, databases@),
            forall|n: Seq<char>| #[trigger]
                out@.contains_key(n) <==> exists|k: int| 0 <= k < i && (#[trigger] names@[k])@ == n,
            forall|n: Seq<char>| #[trigger]
                out@.contains_key(n) ==> databases@.contains_key(n) && out@[n]@ == databases@[n]@,
        decreases names@.len() - i,
    {
        let name = names[i].as_str();
        assert(listed(names@, name@));
        let ghost before = out@;
        if let Some(state) = databases.get(name) {
            out.insert(name, state.dup());
        }
        proof {
            assert forall|n: Seq<char>| #[trigger] out@.contains_key(n) <==> exists|k: int|
                0 <= k < i + 1 && (#[trigger] names@[k])@ == n by {
                if out@.contains_key(n) {
                    if before.contains_key(n) {
                        let k = choose|k: int| 0 <= k < i && (#[trigger] names@[k])@ == n;
                        assert(0 <= k < i + 1);
                    } else {
                        assert(names@[i as int]@ == n);
                    }
                }
                if exists|k: int| 0 <= k < i + 1 && (#[trigger] names@[k])@ == n {
                    let k = choose|k: int| 0 <= k < i + 1 && (#[trigger] names@[k])@ == n;
                    if k < i {
                        assert(before.contains_key(n));
                    }
                }
            }
        }
        i = i + 1;
    }
    proof {
        assert forall|n: Seq<char>| #[trigger] databases@.contains_key(n) implies out@.contains_key(
            n,
        ) by {
            assert(listed(names@, n));
        }
        assert(databases_view(out@) =~= databases_view(databases@));
    }
    out
}

/// Every database of the map is well formed.
pub open spec fn all_sound(m: Map<Seq<char>, DbState>) -> bool {
    forall|name: Seq<char>| #[trigger] m.contains_key(name) ==> m[name]@.wf()
}

pub proof fn lemma_sound(v: &DbService)
    ensures
        all_sound(v.registry.databases@) <==> v@.wf(),
{
    let m = v.registry.databases@;
    let views = v@.databases;
    if all_sound(m) {
        assert forall|name: Seq<char>| #[trigger] views.contains_key(name) implies views[name].wf() by {
            assert(m.contains_key(name));
        }
    }
    if v@.wf() {
        assert forall|name: Seq<char>| #[trigger] m.contains_key(name) implies m[name]@.wf() by {
            assert(views.contains_key(name));
        }
    }
}

/// Executes a lens statement on a copy of a database.
fn try_lens(state: &DbState, faults: FaultInjector, stmt: &Stmt, inputs: &Inputs) -> (r: (
    Result<(), ExecError>,
    DbState,
    FaultInjector,
))
    requires
        state@.wf(),
    ensures
        r.1@.wf(),
        lens_changed(
            World { state: state@, faults: faults.countdown as int },
            stmt,
            false,
            inputs,
            shown(r.0),
            World { state: r.1@, faults: r.2.countdown as int },
        ),
{
    let mut copy = state.dup();
    let mut left = faults;
    let result = copy.exec_lens(stmt, false, inputs, &mut left);
    (result, copy, left)
}

spec fn failure(failed: Option<ExecError>) -> Result<(), ExecErrorV> {
    match failed {
        None => Ok(()),
        Some(e) => Err(e@),
    }
}

fn copy_text(s: &Option<String>) -> (r: Option<String>)
    ensures
        opt_text(r) == opt_text(*s),
{
    match s {
        Some(s) => Some(s.clone()),
        None => None,
    }
}

impl Registry {
    /// The active database.
    pub fn active_db(&self) -> (r: Result<&DbState, ExecError>)
        ensures
            match opt_text(self.active) {
                None => r is Err && r->Err_0@ == ExecErrorV::NoActiveDatabase,
                Some(name) => if self.databases@.contains_key(name) {
                    r is Ok && *r->Ok_0 == self.databases@[name]
                } else {
                    r is Err && r->Err_0@ == ExecErrorV::UnknownDatabase(name)
                },
            },
    {
        match &self.active {
            None => Err(ExecError::NoActiveDatabase),
            Some(name) => match self.databases.get(name.as_str()) {
                Some(state) => Ok(state),
                None => Err(ExecError::UnknownDatabase(name.clone())),
            },
        }
    }
}

impl DbService {
    pub fn new(backend: StorageBackend, compact_threshold: usize) -> (r: Self)
        ensures
            r@ == (ServiceV {
                databases: Map::empty(),
                active: None,
                pending: None,
                faults: -1,
                outbox: Seq::empty(),
            }),
            r@.wf(),
            r.backend == backend,
            r.compact_threshold == compact_threshold,
    {
        let r = DbService {
            registry: Registry { databases: NameMap::new(), active: None },
            pending: None,
            compact_threshold,
            backend,
            faults: FaultInjector::new(),
            outbox: Vec::new(),
        };
        proof {
            assert(r@.databases =~= Map::empty());
            assert(r@.outbox =~= Seq::empty());
        }
        r
    }

    /// The name of the active database, if there is one.
    pub fn active(&self) -> (r: Option<String>)
        ensures
            opt_text(r) == self@.active,
    {
        copy_text(&self.registry.active)
    }

    /// Whether a transaction is open.
    pub fn is_in_transaction(&self) -> (r: bool)
        ensures
            r == (self@.pending is Some),
    {
        self.pending.is_some()
    }

    fn exec_on_active(&mut self, stmt: &Stmt, inputs: &Inputs) -> (r: Result<(), ExecError>)
        requires
            old(self)@.wf(),
        ensures
            final(self)@.wf(),
            final(self).backend == old(self).backend,
            final(self).compact_threshold == old(self).compact_threshold,
            ({
                let result = shown(r);
                if result is Err && result->Err_0.wants_input() {
                    final(self)@ == old(self)@ && exists|tried: ServiceV| #[trigger]
                        on_database(old(self)@, old(self)@.active, stmt, inputs, result, tried)
                } else {
                    on_database(
                        old(self)@,
                        old(self)@.active,
                        stmt,
                        inputs,
                        result,
                        final(self)@,
                    )
                }
            }),
    {
        let ghost v = self@;
        proof {
            lemma_sound(self);
        }
        let state: &DbState = match self.registry.active_db() {
            Ok(state) => state,
            Err(e) => {
                return Err(e);
            },
        };
        let (result, copy, left): (Result<(), ExecError>, DbState, FaultInjector) = try_lens(
            state,
            self.faults,
            stmt,
            inputs,
        );
        let ghost name = v.active->Some_0;
        let ghost w = World { state: copy@, faults: left.countdown as int };
        let ghost after = ServiceV {
            databases: v.databases.insert(name, w.state),
            faults: w.faults,
            ..v
        };
        proof {
            assert(v.databases[name] == state@);
            assert(lens_changed(
                World { state: v.databases[name], faults: v.faults },
                stmt,
                false,
                inputs,
                shown(result),
                w,
            ));
            assert(on_database(v, v.active, stmt, inputs, shown(result), after));
        }
        if let Err(e) = &result {
            if e.is_pending() {
                return result;
            }
        }
        if let Some(name) = &self.registry.active {
            self.registry.databases.insert(name.as_str(), copy);
        }
        self.faults = left;
        proof {
            assert(self@.databases =~= after.databases);
            assert(self@ =~= after);
            assert forall|n: Seq<char>| #[trigger] self@.databases.contains_key(n) implies self@.databases[n].wf() by {
                if n != name {
                    assert(v.databases.contains_key(n));
                }
            }
        }
        result
    }

    fn commit(&mut self, inputs: &Inputs) -> (r: Result<(), ExecError>)
        requires
            old(self)@.wf(),
        ensures
            final(self)@.wf(),
            final(self).backend == old(self).backend,
            final(self).compact_threshold == old(self).compact_threshold,
            ({
                let result = shown(r);
                if result is Err && result->Err_0.wants_input() {
                    final(self)@ == old(self)@ && exists|tried: ServiceV| #[trigger]
                        committed(old(self)@, inputs, result, tried)
                } else {
                    committed(old(self)@, inputs, result, final(self)@)
                }
            }),
    {
        let ghost v = self@;
        proof {
            lemma_sound(self);
        }
        if self.pending.is_none() {
            return Err(ExecError::NoActiveTransaction);
        }
        let mut work = copy_databases(&self.registry.databases);
        let mut faults = self.faults;
        let ghost start = ServiceV { pending: None, ..v };
        let ghost mut run = Run { states: seq![start], results: Seq::empty() };
        let mut failed: Option<ExecError> = None;
        let ghost mut after = v;
        proof {
            assert forall|n: Seq<char>| #[trigger] work@.contains_key(n) implies work@[n]@.wf() by {
                assert(databases_view(work@).contains_key(n));
                assert(databases_view(self.registry.databases@).contains_key(n));
                assert(databases_view(work@)[n] == work@[n]@);
            }
        }
        if let Some(entries) = &self.pending {
            let ghost listing = pending_view(entries@);
            let mut i: usize = 0;
            while i < entries.len() && failed.is_none()
                invariant
                    i <= entries@.len(),
                    listing == pending_view(entries@),
                    all_sound(work@),
                    ran_so_far(start, listing, inputs, run, i as int),
                    run.states.last() == (ServiceV {
                        databases: databases_view(work@),
                        faults: faults.countdown as int,
                        ..start
                    }),
                    failed is None ==> run.results.len() == i && (i > 0 ==> run.results.last() == Ok::<
                        (),
                        ExecErrorV,
                    >(())),
                    failed matches Some(e) ==> i > 0 && run.results.len() == i && run.results.last()
                        == Err::<(), ExecErrorV>(e@),
                decreases entries@.len() - i,
            {
                let entry = &entries[i];
                let ghost here = run.states.last();
                proof {
                    assert(listing[i as int] == (opt_text(entry.0), *entry.1));
                }
                let result: Result<(), ExecError> = match &entry.0 {
                    None => Err(ExecError::NoActiveDatabase),
                    Some(name) => {
                        let mut outcome: Result<(), ExecError> = Err(
                            ExecError::UnknownDatabase(name.clone()),
                        );
                        let mut changed: Option<DbState> = None;
                        if let Some(state) = work.get(name.as_str()) {
                            let (one, copy, left): (
                                Result<(), ExecError>,
                                DbState,
                                FaultInjector,
                            ) = try_lens(state, faults, &entry.1, inputs);
                            proof {
                                let w = World { state: copy@, faults: left.countdown as int };
                                assert(lens_changed(
                                    World { state: here.databases[name@], faults: here.faults },
                                    &*entry.1,
                                    false,
                                    inputs,
                                    shown(one),
                                    w,
                                ));
                            }
                            outcome = one;
                            changed = Some(copy);
                            faults = left;
                        }
                        if let Some(copy) = changed {
                            let ghost before = work@;
                            work.insert(name.as_str(), copy);
                            assert(databases_view(work@) =~= databases_view(before).insert(
                                name@,
                                copy@,
                            ));
                        }
                        outcome
                    },
                };
                proof {
                    let next = ServiceV {
                        databases: databases_view(work@),
                        faults: faults.countdown as int,
                        ..start
                    };
                    assert(on_database(
                        here,
                        listing[i as int].0,
                        &listing[i as int].1,
                        inputs,
                        shown(result),
                        next,
                    ));
                    lemma_ran_next(start, listing, inputs, run, i as int, shown(result), next);
                    run = Run {
                        states: run.states.push(next),
                        results: run.results.push(shown(result)),
                    };
                }
                if let Err(e) = result {
                    failed = Some(e);
                }
                i = i + 1;
            }
            proof {
                assert(v.pending == Some(listing));
                assert(ran(start, listing, inputs, run));
                let outcome = failure(failed);
                assert(outcome == if run.results.len() > 0 {
                    run.results.last()
                } else {
                    Ok(())
                });
                assert(ran(ServiceV { pending: None, ..v }, v.pending->Some_0, inputs, run));
                after = if outcome is Ok {
                    run.states.last()
                } else {
                    ServiceV { databases: v.databases, ..run.states.last() }
                };
                assert(committed(v, inputs, outcome, after));
            }
        }
        if let Some(e) = &failed {
            if e.is_pending() {
                return match failed {
                    Some(e) => Err(e),
                    None => Ok(()),
                };
            }
        }
        if failed.is_none() {
            self.registry.databases = work;
        }
        self.faults = faults;
        self.pending = None;
        proof {
            assert(self@ =~= after);
            lemma_sound(self);
        }
        match failed {
            Some(e) => Err(e),
            None => Ok(()),
        }
    }
}

/// The first `k` statements of a transaction have been executed, all but perhaps the last
/// with success.
spec fn ran_so_far(v: ServiceV, entries: Seq<PendingV>, inputs: &Inputs, run: Run, k: int) -> bool {
    &&& 0 <= k <= entries.len()
    &&& run.states.len() == k + 1
    &&& run.results.len() == k
    &&& run.states[0] == v
    &&& forall|i: int, j: int|
        #![trigger run.states[i], run.states[j]]
        0 <= i < k && j == i + 1 ==> on_database(
            run.states[i],
            entries[i].0,
            &entries[i].1,
            inputs,
            run.results[i],
            run.states[j],
        )
    &&& forall|i: int| 0 <= i < k - 1 ==> (#[trigger] run.results[i]) is Ok
}

proof fn lemma_ran_next(
    v: ServiceV,
    entries: Seq<PendingV>,
    inputs: &Inputs,
    run: Run,
    k: int,
    r: Result<(), ExecErrorV>,
    next: ServiceV,
)
    requires
        ran_so_far(v, entries, inputs, run, k),
        k < entries.len(),
        k > 0 ==> run.results.last() is Ok,
        on_database(run.states.last(), entries[k].0, &entries[k].1, inputs, r, next),
    ensures
        ran_so_far(
            v,
            entries,
            inputs,
            Run { states: run.states.push(next), results: run.results.push(r) },
            k + 1,
        ),
{
    let longer = Run { states: run.states.push(next), results: run.results.push(r) };
    assert forall|i: int, j: int|
        #![trigger longer.states[i], longer.states[j]]
        0 <= i < k + 1 && j == i + 1 implies on_database(
        longer.states[i],
        entries[i].0,
        &entries[i].1,
        inputs,
        longer.results[i],
        longer.states[j],
    ) by {
        if i < k {
            assert(on_database(
                run.states[i],
                entries[i].0,
                &entries[i].1,
                inputs,
                run.results[i],
                run.states[j],
            ));
        }
    }
}

fn copy_log(log: &Vec<Record<Value>>) -> (r: Vec<Record<Value>>)
    ensures
        records_view(r@) == records_view(log@),
{
    let mut out: Vec<Record<Value>> = Vec::new();
    let mut i: usize = 0;
    while i < log.len()
        invariant
            i <= log@.len(),
            records_view(out@) == records_view(log@).take(i as int),
        decreases log@.len() - i,
    {
        let ghost before = out@;
        out.push(log[i].dup());
        proof {
            assert(records_view(out@) =~= records_view(before).push(log@[i as int]@));
            assert(records_view(log@).take(i + 1) =~= records_view(log@).take(i as int).push(
                log@[i as int]@,
            ));
        }
        i = i + 1;
    }
    assert(records_view(log@).take(log@.len() as int) =~= records_view(log@));
    out
}

impl DbService {
    /// The state that a new database starts with.
    fn start_database(&self, name: &str, inputs: &Inputs) -> (r: DbState)
        requires
            inputs.wf(),
        ensures
            r@.wf(),
            starts_with(self.compact_threshold, self.backend, name@, inputs, r@),
    {
        match &self.backend {
            StorageBackend::Memory => {
                let r = DbState::new(self.compact_threshold, false);
                assert(r@ =~= fresh_state(self.compact_threshold, false, None));
                r
            },
            StorageBackend::Disk { wal_max_bytes, .. } => {
                let mut r = match inputs.logs.get(name) {
                    Some(log) => DbState::with_wal(
                        self.compact_threshold,
                        copy_log(log),
                        inputs,
                    ),
                    None => DbState::new(self.compact_threshold, true),
                };
                let ghost before = r@;
                r.db.max_bytes = *wal_max_bytes;
                proof {
                    if inputs.logs@.contains_key(name@) {
                        let log = records_view(inputs.logs@[name@]@);
                        let bare = choose|bare: StateV| #[trigger]
                            rebuilt(log, self.compact_threshold, inputs, bare) && before
                                == (StateV {
                                db: DatabaseV { log: Some(log), ..bare.db },
                                ..bare
                            });
                        assert(rebuilt(log, self.compact_threshold, inputs, bare));
                    } else {
                        assert(r@ =~= fresh_state(self.compact_threshold, true, *wal_max_bytes));
                    }
                }
                r
            },
        }
    }

    fn put_database(&mut self, name: &str, state: DbState)
        requires
            old(self)@.wf(),
            state@.wf(),
        ensures
            final(self)@.wf(),
            final(self).backend == old(self).backend,
            final(self).compact_threshold == old(self).compact_threshold,
            final(self)@ == (ServiceV {
                databases: old(self)@.databases.insert(name@, state@),
                ..old(self)@
            }),
    {
        let ghost v = self@;
        self.registry.databases.insert(name, state);
        proof {
            assert(self@.databases =~= v.databases.insert(name@, state@));
            assert forall|n: Seq<char>| #[trigger] self@.databases.contains_key(n) implies self@.databases[n].wf() by {
                if n != name@ {
                    assert(v.databases.contains_key(n));
                }
            }
        }
    }

    /// `CREATE DATABASE`.
    pub fn create_database(&mut self, name: &str, inputs: &Inputs) -> (r: Result<(), ExecError>)
        requires
            old(self)@.wf(),
            inputs.wf(),
        ensures
            final(self)@.wf(),
            final(self).backend == old(self).backend,
            final(self).compact_threshold == old(self).compact_threshold,
            database_created(
                old(self)@,
                old(self).compact_threshold,
                old(self).backend,
                name@,
                inputs,
                shown(r),
                final(self)@,
            ),
    {
        let ghost v = self@;
        if self.registry.databases.contains_key(name) {
            assert(v.databases.contains_key(name@));
            return Err(ExecError::DuplicateDatabase(owned(name)));
        }
        assert(!v.databases.contains_key(name@));
        let state = self.start_database(name, inputs);
        assert(starts_with(self.compact_threshold, self.backend, name@, inputs, state@));
        self.put_database(name, state);
        if self.registry.active.is_none() {
            self.registry.active = Some(owned(name));
        }
        Ok(())
    }

    /// `DROP DATABASE`.
    pub fn drop_database(&mut self, name: &str) -> (r: Result<(), ExecError>)
        requires
            old(self)@.wf(),
        ensures
            final(self)@.wf(),
            final(self).backend == old(self).backend,
            final(self).compact_threshold == old(self).compact_threshold,
            (shown(r), final(self)@) == drop_database_of(old(self)@, name@),
    {
        let ghost v = self@;
        if !self.registry.databases.contains_key(name) {
            assert(!v.databases.contains_key(name@));
            return Err(ExecError::UnknownDatabase(owned(name)));
        }
        assert(v.databases.contains_key(name@));
        let _ = self.registry.databases.remove(name);
        let was_active: bool = match &self.registry.active {
            Some(active) => same_text(active.as_str(), name),
            None => false,
        };
        if was_active {
            self.registry.active = None;
        }
        proof {
            assert(self@.databases =~= v.databases.remove(name@));
            assert forall|n: Seq<char>| #[trigger] self@.databases.contains_key(n) implies self@.databases[n].wf() by {
                assert(v.databases.contains_key(n));
            }
        }
        Ok(())
    }

    /// `USE DATABASE`.
    pub fn use_database(&mut self, name: &str) -> (r: Result<(), ExecError>)
        requires
            old(self)@.wf(),
        ensures
            final(self)@.wf(),
            final(self).backend == old(self).backend,
            final(self).compact_threshold == old(self).compact_threshold,
            (shown(r), final(self)@) == use_database_of(old(self)@, name@),
    {
        let ghost v = self@;
        if !self.registry.databases.contains_key(name) {
            assert(!v.databases.contains_key(name@));
            return Err(ExecError::UnknownDatabase(owned(name)));
        }
        assert(v.databases.contains_key(name@));
        self.registry.active = Some(owned(name));
        Ok(())
    }

    /// `BACKUP DATABASE`: the backup goes to the outbox.
    pub fn backup_database(&mut self, name: &str, path: &str) -> (r: Result<(), ExecError>)
        requires
            old(self)@.wf(),
        ensures
            final(self)@.wf(),
            final(self).backend == old(self).backend,
            final(self).compact_threshold == old(self).compact_threshold,
            backed_up(old(self)@, name@, path@, shown(r), final(self)@),
    {
        let ghost v = self@;
        match self.registry.databases.get(name) {
            None => {
                assert(!v.databases.contains_key(name@));
                Err(ExecError::UnknownDatabase(owned(name)))
            },
            Some(state) => {
                let log = state.backup();
                let ghost records = records_view(log@);
                assert(v.databases.contains_key(name@));
                assert(backs_up(v.databases[name@], records));
                let entry = (owned(path), log);
                self.outbox.push(entry);
                assert(self@.outbox =~= v.outbox.push((path@, records)));
                Ok(())
            },
        }
    }

    /// `RESTORE DATABASE`.
    pub fn restore_database(&mut self, name: &str, path: &str, inputs: &Inputs) -> (r: Result<
        (),
        ExecError,
    >)
        requires
            old(self)@.wf(),
            inputs.wf(),
        ensures
            final(self)@.wf(),
            final(self).backend == old(self).backend,
            final(self).compact_threshold == old(self).compact_threshold,
            restored(
                old(self)@,
                old(self).compact_threshold,
                name@,
                path@,
                inputs,
                shown(r),
                final(self)@,
            ),
    {
        let ghost v = self@;
        if self.registry.databases.contains_key(name) {
            assert(v.databases.contains_key(name@));
            return Err(ExecError::DuplicateDatabase(owned(name)));
        }
        assert(!v.databases.contains_key(name@));
        match inputs.backups.get(path) {
            None => Err(ExecError::PendingFile(owned(path))),
            Some(Err(why)) => Err(ExecError::Io(why.clone())),
            Some(Ok(log)) => {
                let state = DbState::recover(self.compact_threshold, log, inputs);
                let ghost restored = state@;
                assert(rebuilt(
                    records_view(log@),
                    self.compact_threshold,
                    inputs,
                    restored,
                ));
                self.put_database(name, state);
                Ok(())
            },
        }
    }

    /// Executes a statement that changes something.
    pub fn execute(&mut self, stmt: &Arc<Stmt>, inputs: &Inputs) -> (r: Result<(), ExecError>)
        requires
            old(self)@.wf(),
            inputs.wf(),
        ensures
            final(self)@.wf(),
            final(self).backend == old(self).backend,
            final(self).compact_threshold == old(self).compact_threshold,
            executed(
                old(self)@,
                old(self).compact_threshold,
                old(self).backend,
                &**stmt,
                inputs,
                shown(r),
                final(self)@,
            ),
    {
        let ghost v = self@;
        if self.pending.is_some() && is_transactable(stmt) {
            let entry: PendingStmt = (copy_text(&self.registry.active), share(stmt));
            let mut pending: Option<Vec<PendingStmt>> = None;
            core::mem::swap(&mut self.pending, &mut pending);
            if let Some(mut entries) = pending {
                let ghost before = pending_view(entries@);
                entries.push(entry);
                proof {
                    assert(pending_view(entries@) =~= before.push((v.active, **stmt)));
                }
                self.pending = Some(entries);
            }
            return Ok(());
        }
        match &**stmt {
            Stmt::StartTransaction => {
                if self.pending.is_some() {
                    return Err(ExecError::TransactionAlreadyActive);
                }
                let none: Vec<PendingStmt> = Vec::new();
                assert(pending_view(none@) =~= Seq::empty());
                self.pending = Some(none);
                assert(self@ =~= (ServiceV { pending: Some(Seq::empty()), ..v }));
                Ok(())
            },
            Stmt::Commit => {
                let r = self.commit(inputs);
                proof {
                    let result = shown(r);
                    if result is Err && result->Err_0.wants_input() {
                        let tried = choose|tried: ServiceV| #[trigger]
                            committed(v, inputs, result, tried);
                        assert(served(
                            v,
                            self.compact_threshold,
                            self.backend,
                            &**stmt,
                            inputs,
                            result,
                            tried,
                        ));
                    }
                }
                r
            },
            Stmt::Rollback => {
                if self.pending.is_none() {
                    return Err(ExecError::NoActiveTransaction);
                }
                self.pending = None;
                assert(self@ =~= (ServiceV { pending: None, ..v }));
                Ok(())
            },
            Stmt::CreateDatabase { name } => self.create_database(name.as_str(), inputs),
            Stmt::DropDatabase { name } => self.drop_database(name.as_str()),
            Stmt::UseDatabase { name } => self.use_database(name.as_str()),
            Stmt::BackupDatabase { name, path } => self.backup_database(
                name.as_str(),
                path.as_str(),
            ),
            Stmt::RestoreDatabase { name, path } => {
                let r = self.restore_database(name.as_str(), path.as_str(), inputs);
                assert(served(
                    v,
                    self.compact_threshold,
                    self.backend,
                    &**stmt,
                    inputs,
                    shown(r),
                    self@,
                ));
                r
            },
            other => {
                if is_transactable(other) {
                    let r = self.exec_on_active(other, inputs);
                    proof {
                        let result = shown(r);
                        if result is Err && result->Err_0.wants_input() {
                            let tried = choose|tried: ServiceV| #[trigger]
                                on_database(v, v.active, &**stmt, inputs, result, tried);
                            assert(served(
                                v,
                                self.compact_threshold,
                                self.backend,
                                &**stmt,
                                inputs,
                                result,
                                tried,
                            ));
                        }
                    }
                    r
                } else {
                    Err(ExecError::InvalidExpr(owned("db service: not a mutating statement")))
                }
            },
        }
    }
}

impl DbService {
    /// Notes a declaration in the log of the active database, where there is one.
    pub fn append_schema_active(&mut self, text: &str) -> (r: Result<(), ExecError>)
        requires
            old(self)@.wf(),
        ensures
            final(self)@.wf(),
            final(self).backend == old(self).backend,
            final(self).compact_threshold == old(self).compact_threshold,
            (r is Ok, final(self)@) == noted_on_active(old(self)@, RecordV::Schema(text@)),
            r matches Err(e) ==> e@ == log_failure(),
    {
        let ghost v = self@;
        let name: String = match &self.registry.active {
            Some(name) => name.clone(),
            None => {
                return Ok(());
            },
        };
        let mut copy: DbState = match self.registry.databases.get(name.as_str()) {
            Some(state) => {
                assert(v.databases.contains_key(name@));
                assert(v.databases[name@] == state@);
                state.dup()
            },
            None => {
                assert(!v.databases.contains_key(name@));
                return Ok(());
            },
        };
        let mut faults = self.faults;
        let r = match copy.db.append_schema(text, &mut faults) {
            Ok(()) => Ok(()),
            Err(e) => Err(ExecError::Io(e)),
        };
        self.faults = faults;
        let ghost after = copy@;
        proof {
            let (_, w) = note(
                World { state: v.databases[name@], faults: v.faults },
                RecordV::Schema(text@),
            );
            assert(w.state =~= after);
            assert(after.wf());
        }
        self.put_database(name.as_str(), copy);
        r
    }

    /// Has the logs of all databases rewritten once they reach a size.
    pub fn set_wal_max_bytes(&mut self, bytes: u64)
        requires
            old(self)@.wf(),
        ensures
            final(self)@.wf(),
            final(self).backend == old(self).backend,
            final(self).compact_threshold == old(self).compact_threshold,
            final(self)@.databases.dom() == old(self)@.databases.dom(),
            forall|name: Seq<char>| #[trigger]
                final(self)@.databases.contains_key(name) ==> final(self)@.databases[name] == limited(
                    old(self)@.databases[name],
                    bytes,
                ),
            final(self)@ == (ServiceV { databases: final(self)@.databases, ..old(self)@ }),
    {
        let ghost v = self@;
        let names = self.registry.databases.names();
        let mut i: usize = 0;
        while i < names.len()
            invariant
                i <= names@.len(),
                lists_keys(names@, old(self).registry.databases@),
                v == old(self)@,
                self@.wf(),
                self.backend == old(self).backend,
                self.compact_threshold == old(self).compact_threshold,
                self@ == (ServiceV { databases: self@.databases, ..v }),
                self@.databases.dom() =~= v.databases.dom(),
                forall|n: Seq<char>| #[trigger]
                    self@.databases.contains_key(n) ==> self@.databases[n] == if exists|k: int|
                        0 <= k < i && (#[trigger] names@[k])@ == n {
                        limited(v.databases[n], bytes)
                    } else {
                        v.databases[n]
                    },
            decreases names@.len() - i,
        {
            let name = names[i].as_str();
            assert(listed(names@, name@));
            let ghost before = self@;
            proof {
                assert(old(self).registry.databases@.contains_key(name@));
                assert(v.databases.contains_key(name@));
                assert(before.databases.contains_key(name@));
                if exists|k: int| 0 <= k < i && (#[trigger] names@[k])@ == name@ {
                    let k = choose|k: int| 0 <= k < i && (#[trigger] names@[k])@ == name@;
                    assert(names@[k]@ == names@[i as int]@);
                }
                assert(before.databases[name@] == v.databases[name@]);
            }
            let mut copy: DbState = match self.registry.databases.get(name) {
                Some(state) => state.dup(),
                None => {
                    return ;
                },
            };
            let ghost held = copy@;
            copy.db.set_wal_max_bytes(bytes);
            assert(copy@ =~= limited(held, bytes));
            self.put_database(name, copy);
            proof {
                assert forall|n: Seq<char>| #[trigger] self@.databases.contains_key(n) implies self@.databases[n]
                    == if exists|k: int| 0 <= k < i + 1 && (#[trigger] names@[k])@ == n {
                    limited(v.databases[n], bytes)
                } else {
                    v.databases[n]
                } by {
                    if n == name@ {
                        assert(names@[i as int]@ == n);
                    } else {
                        assert(before.databases.contains_key(n));
                        if exists|k: int| 0 <= k < i + 1 && (#[trigger] names@[k])@ == n {
                            let k = choose|k: int| 0 <= k < i + 1 && (#[trigger] names@[k])@ == n;
                            assert(k < i);
                            assert(0 <= k < i && names@[k]@ == n);
                        }
                    }
                }
            }
            i = i + 1;
        }
        proof {
            assert forall|n: Seq<char>| #[trigger] self@.databases.contains_key(n) implies self@.databases[n]
                == limited(v.databases[n], bytes) by {
                assert(v.databases.contains_key(n));
                assert(old(self).registry.databases@.contains_key(n));
                assert(listed(names@, n));
                let k = choose|k: int| 0 <= k < names@.len() && (#[trigger] names@[k])@ == n;
                assert(0 <= k < i && names@[k]@ == n);
            }
        }
    }
}

/// A database of which nothing waits to be counted.
pub open spec fn hushed(s: StateV) -> StateV {
    StateV { db: DatabaseV { events: Seq::empty(), ..s.db }, ..s }
}

/// The databases once all that waited has been counted.
pub open spec fn quiet(v: ServiceV) -> ServiceV {
    ServiceV { databases: v.databases.map_values(|s: StateV| hushed(s)), ..v }
}

/// What waits to be counted, database by database.
pub open spec fn gathered(names: Seq<String>, databases: Map<Seq<char>, StateV>) -> Seq<EventKind>
    decreases names.len(),
{
    if names.len() == 0 {
        Seq::empty()
    } else {
        gathered(names.drop_last(), databases) + databases[names.last()@].db.events
    }
}

/// The events are those that wait to be counted, the databases in name order.
pub open spec fn awaiting_count(v: ServiceV, events: Seq<EventKind>) -> bool {
    exists|names: Seq<String>| #[trigger]
        lists_keys(names, v.databases) && events == gathered(names, v.databases)
}

impl DbService {
    /// Hands out what waits to be counted.
    pub fn take_events(&mut self) -> (r: Vec<StoreEvent>)
        requires
            old(self)@.wf(),
        ensures
            final(self)@.wf(),
            final(self).backend == old(self).backend,
            final(self).compact_threshold == old(self).compact_threshold,
            awaiting_count(old(self)@, kinds(r@)),
            final(self)@ == quiet(old(self)@),
    {
        let ghost v = self@;
        let names = self.registry.databases.names();
        let mut out: Vec<StoreEvent> = Vec::new();
        let mut i: usize = 0;
        proof {
            assert(kinds(out@) =~= Seq::empty());
            assert(names@.take(0) =~= Seq::empty());
            assert(lists_keys(names@, v.databases)) by {
                assert forall|k: Seq<char>| #[trigger]
                    v.databases.contains_key(k) <==> listed(names@, k) by {
                    assert(self.registry.databases@.contains_key(k) <==> listed(names@, k));
                }
            }
        }
        while i < names.len()
            invariant
                i <= names@.len(),
                v == old(self)@,
                v.wf(),
                lists_keys(names@, v.databases),
                self.backend == old(self).backend,
                self.compact_threshold == old(self).compact_threshold,
                self@ == (ServiceV { databases: self@.databases, ..v }),
                kinds(out@) == gathered(names@.take(i as int), v.databases),
                forall|n: Seq<char>|
                    {
                        &&& #[trigger] self@.databases.contains_key(n) <==> v.databases.contains_key(n)
                        &&& self@.databases.contains_key(n) ==> self@.databases[n] == if listed(
                            names@.take(i as int),
                            n,
                        ) {
                            hushed(v.databases[n])
                        } else {
                            v.databases[n]
                        }
                    },
            decreases names@.len() - i,
        {
            let name = names[i].as_str();
            let ghost m = self@.databases;
            let ghost was = out@;
            proof {
                assert(listed(names@, name@));
                assert(v.databases.contains_key(name@));
                assert(m.contains_key(name@));
                assert(self.registry.databases@.contains_key(name@));
                lemma_not_yet(names@, i as int);
            }
            if let Some(state) = self.registry.databases.remove(name) {
                let mut state = state;
                assert(state@ == v.databases[name@]);
                let mut events = state.db.take_events();
                let ghost given = events@;
                out.append(&mut events);
                self.registry.databases.insert(name, state);
                proof {
                    assert(state@ == hushed(v.databases[name@]));
                    assert(self@.databases =~= m.insert(name@, hushed(v.databases[name@])));
                    assert(kinds(out@) =~= kinds(was) + kinds(given));
                    assert(names@.take(i + 1).drop_last() =~= names@.take(i as int));
                }
            }
            proof {
                assert forall|n: Seq<char>|
                    {
                        &&& #[trigger] self@.databases.contains_key(n) <==> v.databases.contains_key(n)
                        &&& self@.databases.contains_key(n) ==> self@.databases[n] == if listed(
                            names@.take(i + 1),
                            n,
                        ) {
                            hushed(v.databases[n])
                        } else {
                            v.databases[n]
                        }
                    } by {
                    assert(m.contains_key(n) <==> v.databases.contains_key(n));
                    lemma_one_more(names@, i as int, n);
                }
            }
            i = i + 1;
        }
        proof {
            assert(names@.take(names@.len() as int) =~= names@);
            assert(self@.databases =~= quiet(v).databases);
            assert forall|n: Seq<char>| #[trigger] self@.databases.contains_key(n) implies self@.databases[n].wf() by {
                assert(v.databases.contains_key(n));
                assert(v.databases[n].wf());
            }
        }
        out
    }
}

proof fn lemma_one_more(names: Seq<String>, i: int, n: Seq<char>)
    requires
        0 <= i < names.len(),
    ensures
        listed(names.take(i + 1), n) <==> listed(names.take(i), n) || n == names[i]@,
{
    let (some, more) = (names.take(i), names.take(i + 1));
    if listed(more, n) {
        let k = choose|k: int| 0 <= k < more.len() && (#[trigger] more[k])@ == n;
        if k < i {
            assert(some[k]@ == n);
        }
    }
    if listed(some, n) {
        let k = choose|k: int| 0 <= k < some.len() && (#[trigger] some[k])@ == n;
        assert(more[k]@ == n);
    }
    if n == names[i]@ {
        assert(more[i]@ == n);
    }
}

proof fn lemma_not_yet(names: Seq<String>, i: int)
    requires
        0 <= i < names.len(),
        in_name_order(names),
    ensures
        !listed(names.take(i), names[i]@),
{
    let some = names.take(i);
    if listed(some, names[i]@) {
        let k = choose|k: int| 0 <= k < some.len() && (#[trigger] some[k])@ == names[i]@;
        assert(names[k]@ == names[i]@);
    }
}

/// A database whose log, if it has one, is to be rewritten once it reaches a size.
pub open spec fn limited(s: StateV, bytes: u64) -> StateV {
    StateV {
        db: DatabaseV {
            max_bytes: if s.db.log is Some {
                Some(bytes)
            } else {
                s.db.max_bytes
            },
            ..s.db
        },
        ..s
    }
}

/// A transaction that commits does what its statements would have done one by one without
/// it, each with the database active that was when it was put off.
pub proof fn law_commit_matches_direct_writes(
    v: ServiceV,
    threshold: usize,
    backend: StorageBackend,
    inputs: &Inputs,
    after: ServiceV,
)
    requires
        v.pending matches Some(entries) && forall|i: int|
            0 <= i < entries.len() ==> (#[trigger] entries[i]).1.lens_change(),
        served(v, threshold, backend, &Stmt::Commit, inputs, Ok(()), after),
    ensures
        exists|states: Seq<ServiceV>| #[trigger]
            served_in_turn(
                v.pending->Some_0,
                states,
                threshold,
                backend,
                inputs,
            ) && states[0] == (ServiceV { pending: None, ..v }) && states.last() == after,
        after.pending is None,
        after.active == v.active,
{
    let entries = v.pending->Some_0;
    let bare = ServiceV { pending: None, ..v };
    let run = choose|run: Run| #[trigger]
        ran(bare, entries, inputs, run) && after == run.states.last() && Ok::<(), ExecErrorV>(())
            == if run.results.len() > 0 {
            run.results.last()
        } else {
            Ok(())
        };
    let states = run.states;
    assert(run.results.len() == entries.len());
    assert forall|i: int| 0 <= i < states.len() implies (#[trigger] states[i]).active == v.active
        && states[i].pending is None by {
        lemma_run_keeps(bare, entries, inputs, run, i);
    }
    assert forall|i: int, j: int|
        #![trigger states[i], states[j]]
        0 <= i < entries.len() && j == i + 1 implies served(
        with_active(states[i], entries[i].0),
        threshold,
        backend,
        &entries[i].1,
        inputs,
        Ok(()),
        with_active(states[j], entries[i].0),
    ) by {
        assert(run.results[i] is Ok);
        if let Ok(done) = run.results[i] {
            assert(done == ());
        }
        lemma_directly(states[i], entries[i], threshold, backend, inputs, Ok(()), states[j]);
    }
    assert(served_in_turn(entries, states, threshold, backend, inputs));
    assert(states[states.len() - 1].active == v.active);
}

/// A statement of a transaction executed directly, with the database active on which it was
/// put off.
proof fn lemma_directly(
    v: ServiceV,
    entry: PendingV,
    threshold: usize,
    backend: StorageBackend,
    inputs: &Inputs,
    r: Result<(), ExecErrorV>,
    after: ServiceV,
)
    requires
        v.pending is None,
        entry.1.lens_change(),
        on_database(v, entry.0, &entry.1, inputs, r, after),
    ensures
        served(
            with_active(v, entry.0),
            threshold,
            backend,
            &entry.1,
            inputs,
            r,
            with_active(after, entry.0),
        ),
{
    let (name, stmt) = entry;
    let (one, two) = (with_active(v, name), with_active(after, name));
    assert(database_of(one, name) == database_of(v, name));
    if let Ok(state) = database_of(v, name) {
        let world = choose|world: World| #[trigger]
            lens_changed(
                World { state, faults: v.faults },
                &stmt,
                false,
                inputs,
                r,
                world,
            ) && after == (ServiceV {
                databases: v.databases.insert(name->Some_0, world.state),
                faults: world.faults,
                ..v
            });
        assert(two == (ServiceV {
            databases: one.databases.insert(name->Some_0, world.state),
            faults: world.faults,
            ..one
        }));
    }
    assert(on_database(one, one.active, &stmt, inputs, r, two));
}

/// Some direct execution of the statements, one by one and each on its database, succeeds up
/// to one that fails with the error.
pub open spec fn fails_directly(
    v: ServiceV,
    entries: Seq<PendingV>,
    threshold: usize,
    backend: StorageBackend,
    inputs: &Inputs,
    e: ExecErrorV,
) -> bool {
    exists|states: Seq<ServiceV>, last: ServiceV| #[trigger]
        fails_after(v, entries, threshold, backend, inputs, e, states, last)
}

/// The statements executed directly pass through the states, all with success, and the next
/// one fails.
pub open spec fn fails_after(
    v: ServiceV,
    entries: Seq<PendingV>,
    threshold: usize,
    backend: StorageBackend,
    inputs: &Inputs,
    e: ExecErrorV,
    states: Seq<ServiceV>,
    last: ServiceV,
) -> bool {
    let n = states.len() - 1;
    &&& 0 <= n < entries.len()
    &&& states[0] == v
    &&& served_in_turn(entries.take(n), states, threshold, backend, inputs)
    &&& served(
        with_active(states[n], entries[n].0),
        threshold,
        backend,
        &entries[n].1,
        inputs,
        Err(e),
        with_active(last, entries[n].0),
    )
}

/// A transaction commits unless its statements executed directly would fail, and where it does
/// not commit its error is theirs. It is over either way, and leaves the same database active.
pub proof fn law_commit_fails_only_as_direct_writes(
    v: ServiceV,
    threshold: usize,
    backend: StorageBackend,
    inputs: &Inputs,
    r: Result<(), ExecErrorV>,
    after: ServiceV,
)
    requires
        v.pending matches Some(entries) && forall|i: int|
            0 <= i < entries.len() ==> (#[trigger] entries[i]).1.lens_change(),
        served(v, threshold, backend, &Stmt::Commit, inputs, r, after),
    ensures
        r is Err ==> fails_directly(
            ServiceV { pending: None, ..v },
            v.pending->Some_0,
            threshold,
            backend,
            inputs,
            r->Err_0,
        ),
        (forall|e: ExecErrorV|
            !#[trigger] fails_directly(
                ServiceV { pending: None, ..v },
                v.pending->Some_0,
                threshold,
                backend,
                inputs,
                e,
            )) ==> r is Ok,
        after.pending is None,
        after.active == v.active,
{
    let entries = v.pending->Some_0;
    let bare = ServiceV { pending: None, ..v };
    let run = choose|run: Run| #[trigger]
        ran(bare, entries, inputs, run) && after == if r is Ok {
            run.states.last()
        } else {
            ServiceV { databases: v.databases, ..run.states.last() }
        } && r == if run.results.len() > 0 {
            run.results.last()
        } else {
            Ok(())
        };
    let states = run.states;
    assert forall|i: int| 0 <= i < states.len() implies (#[trigger] states[i]).active == v.active
        && states[i].pending is None by {
        lemma_run_keeps(bare, entries, inputs, run, i);
    }
    assert(states[states.len() - 1].active == v.active);
    if let Err(e) = r {
        let n = run.results.len() - 1;
        let done = states.drop_last();
        assert forall|i: int, j: int|
            #![trigger done[i], done[j]]
            0 <= i < n && j == i + 1 implies served(
            with_active(done[i], entries.take(n)[i].0),
            threshold,
            backend,
            &entries.take(n)[i].1,
            inputs,
            Ok(()),
            with_active(done[j], entries.take(n)[i].0),
        ) by {
            assert(done[i] == states[i] && done[j] == states[j]);
            assert(run.results[i] is Ok);
            if let Ok(done) = run.results[i] {
                assert(done == ());
            }
            lemma_directly(states[i], entries[i], threshold, backend, inputs, Ok(()), states[j]);
        }
        assert(served_in_turn(entries.take(n), done, threshold, backend, inputs));
        assert(on_database(
            states[n],
            entries[n].0,
            &entries[n].1,
            inputs,
            run.results[n],
            states[n + 1],
        ));
        lemma_directly(states[n], entries[n], threshold, backend, inputs, r, states[n + 1]);
        assert(fails_after(bare, entries, threshold, backend, inputs, e, done, states[n + 1]));
    }
}

/// The databases with another one active.
pub open spec fn with_active(v: ServiceV, active: Option<Seq<char>>) -> ServiceV {
    ServiceV { active, ..v }
}

/// Statements executed one by one, each on its database and with success.
pub open spec fn served_in_turn(
    entries: Seq<PendingV>,
    states: Seq<ServiceV>,
    threshold: usize,
    backend: StorageBackend,
    inputs: &Inputs,
) -> bool {
    &&& states.len() == entries.len() + 1
    &&& forall|i: int, j: int|
        #![trigger states[i], states[j]]
        0 <= i < entries.len() && j == i + 1 ==> served(
            with_active(states[i], entries[i].0),
            threshold,
            backend,
            &entries[i].1,
            inputs,
            Ok(()),
            with_active(states[j], entries[i].0),
        )
}

/// A transaction that fails to commit changes no database.
pub proof fn law_failed_commit_changes_nothing(
    v: ServiceV,
    threshold: usize,
    backend: StorageBackend,
    inputs: &Inputs,
    r: Result<(), ExecErrorV>,
    after: ServiceV,
)
    requires
        served(v, threshold, backend, &Stmt::Commit, inputs, r, after),
        r is Err,
    ensures
        after.databases == v.databases,
        after.active == v.active,
        after.pending is None,
{
    if let Some(entries) = v.pending {
        let bare = ServiceV { pending: None, ..v };
        let run = choose|run: Run| #[trigger]
            ran(bare, entries, inputs, run) && after == (ServiceV {
                databases: v.databases,
                ..run.states.last()
            });
        lemma_run_keeps(bare, entries, inputs, run, run.states.len() - 1);
    }
}

/// A change that fails leaves every database as it is. Of a statement that writes rows this is
/// said where the log could not be written.
pub proof fn law_failed_change_leaves_databases(
    v: ServiceV,
    threshold: usize,
    backend: StorageBackend,
    stmt: &Stmt,
    inputs: &Inputs,
    r: Result<(), ExecErrorV>,
    after: ServiceV,
)
    requires
        executed(v, threshold, backend, stmt, inputs, r, after),
        r is Err,
        is_undone(r->Err_0) || !writes_rows(stmt),
    ensures
        after.databases == v.databases,
        after.active == v.active,
{
    if !r->Err_0.wants_input() {
        if stmt is Commit {
            law_failed_commit_changes_nothing(v, threshold, backend, inputs, r, after);
        } else if stmt.lens_change() && v.pending is None {
            if let Ok(state) = database_of(v, v.active) {
                let w = choose|w: World| #[trigger]
                    lens_changed(
                        World { state, faults: v.faults },
                        stmt,
                        false,
                        inputs,
                        r,
                        w,
                    ) && after == (ServiceV {
                        databases: v.databases.insert(v.active->Some_0, w.state),
                        faults: w.faults,
                        ..v
                    });
                law_failed_statement_changes_nothing(
                    World { state, faults: v.faults },
                    stmt,
                    false,
                    inputs,
                    r,
                    w,
                );
                assert(after.databases =~= v.databases);
            }
        }
    }
}

proof fn lemma_run_keeps(
    v: ServiceV,
    entries: Seq<PendingV>,
    inputs: &Inputs,
    run: Run,
    i: int,
)
    requires
        ran(v, entries, inputs, run),
        0 <= i < run.states.len(),
    ensures
        run.states[i].active == v.active,
        run.states[i].pending == v.pending,
    decreases i,
{
    if i > 0 {
        lemma_run_keeps(v, entries, inputs, run, i - 1);
        assert(on_database(
            run.states[i - 1],
            entries[i - 1].0,
            &entries[i - 1].1,
            inputs,
            run.results[i - 1],
            run.states[i],
        ));
    }
}

} // verus!
