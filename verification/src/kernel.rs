//! The kernel: it routes every statement to the service that owns it.
//!
//! Reads go to the query service, changes to the database service, user management to the
//! authentication service. Running user-defined functions is left to the host, which is
//! told when to run which.

use crate::ast::{opt_text, Stmt, StmtV, TriggerKind};
use crate::auth::{
    granted, lists_grants, revoked, AuthEvent, AuthResult, AuthService, SyscallError, User,
    UserStore, UserV, UsersV, auth_answers, auth_change,
};
use crate::change::{literal_taus, shown};
use crate::clock::{moment, nanoseconds_since, Clock};
use crate::copy::Row;
use crate::database::{kind_of, kinds, EventKind, RecordV, StoreEvent};
use crate::error::{ExecError, ExecErrorV};
use crate::functions::{
    has_function, judge, names_apart, place_of, places, registered, some_refusal, watches,
    without_function, first_fire, FunctionTable, FunctionV, HookReturn, PermissionVerdict,
};
use crate::handle::{RawHandle, Slab, Slot};
use crate::inputs::Inputs;
use crate::memory::COMPACT_THRESHOLD;
use crate::metrics::{one_more, op_of, stmt_to_op, MetricEvent, Metrics, MetricsV};
use crate::names::{listed, lists_keys, NameMap};
use crate::output::Output;
use crate::perm::Perm;
use crate::policy::{
    check_permission, filter_show_databases, name_texts, permission_of, visible_names,
};
use crate::read::{answers, QueryService};
use crate::render::{create_function_text, drop_function_text};
use crate::service::{
    awaiting_count, executed, law_failed_change_leaves_databases, noted_on_active, quiet, DbService,
    ServiceV, StorageBackend,
};
use crate::state::{is_undone, literal_rows, log_failure, schema_record, writes_rows};
use crate::text::owned;
use crate::value::Value;
use std::sync::Arc;
use vstd::prelude::*;

verus! {

/// Why a call into a running system failed.
#[derive(Debug, Clone, PartialEq, Eq)]
pub enum KernelError {
    /// The loop that serves calls is gone.
    Shutdown,
    SyscallFailed(SyscallError),
}

/// A resource of the host that can be read from and written to.
pub trait ExternalHandler {
    fn read(&self, buf: &mut [u8]) -> Result<usize, SyscallError>;

    fn write(&self, data: &[u8]) -> Result<usize, SyscallError>;
}

/// What is to be done to complete a statement.
#[derive(Debug)]
pub enum Action {
    /// Nothing; this is the answer.
    Done(Output),
    /// The host is to call the function at a place; its value is the answer.
    Call { place: usize },
    /// The statement is done and has an empty answer. The host is to run the functions at
    /// the given places, which watch what was written.
    Trigger { lens: String, rows: Vec<Row>, places: Vec<usize> },
}

#[verifier::ext_equal]
pub struct KernelV {
    pub service: ServiceV,
    pub users: UsersV,
    pub functions: Seq<FunctionV>,
    pub metrics: MetricsV,
    /// How many triggers deep execution is.
    pub depth: u32,
}

/// The kernel.
#[derive(Debug)]
pub struct Kernel {
    pub db: DbService,
    pub auth: AuthService,
    pub functions: FunctionTable,
    pub metrics: Metrics,
    pub clock: Clock,
    pub slab: Slab,
    /// Logical time.
    pub tick: u64,
    pub depth: u32,
    /// The handles of the built-in services.
    pub service_handles: Vec<RawHandle>,
}

impl View for Kernel {
    type V = KernelV;

    open spec fn view(&self) -> KernelV {
        KernelV {
            service: self.db@,
            users: self.auth@,
            functions: self.functions@,
            metrics: self.metrics@,
            depth: self.depth,
        }
    }
}

impl KernelV {
    pub open spec fn wf(self) -> bool {
        self.service.wf() && names_apart(self.functions) && self.metrics.wf()
    }
}

/// The kernel keeps what no statement changes.
pub open spec fn keeps_rest(before: &Kernel, after: &Kernel) -> bool {
    &&& after.clock == before.clock
    &&& after.slab == before.slab
    &&& after.tick == before.tick
    &&& after.service_handles == before.service_handles
    &&& after.db.backend == before.db.backend
    &&& after.db.compact_threshold == before.db.compact_threshold
}

/// The answer where a statement is done.
pub open spec fn answer_of(r: Result<Action, ExecError>) -> Result<Output, ExecError> {
    match r {
        Ok(Action::Done(out)) => Ok(out),
        Ok(_) => Ok(Output::Empty),
        Err(e) => Err(e),
    }
}

/// The statement is done, without an answer.
pub open spec fn is_empty_answer(r: Result<Action, ExecError>) -> bool {
    r matches Ok(Action::Done(Output::Empty))
}

pub open spec fn fails_with(r: Result<Action, ExecError>, e: ExecErrorV) -> bool {
    r is Err && r->Err_0@ == e
}

/// `SHOW GRANTS`: of one user, or of all in name order.
pub open spec fn grants_shown(users: UsersV, target: Option<Seq<char>>, r: Result<Action, ExecError>) -> bool {
    match target {
        Some(name) => if users.contains_key(name) {
            r matches Ok(Action::Done(Output::Grants(list))) && list@.len() == 1 && list@[0].0@
                == name && lists_grants(list@[0].1@, users[name].grants)
        } else {
            fails_with(r, ExecErrorV::UnknownUser(name))
        },
        None => r matches Ok(Action::Done(Output::Grants(list))) && lists_keys(
            list@.map_values(|g: (String, Vec<(String, Perm)>)| g.0),
            users,
        ) && forall|i: int|
            0 <= i < list@.len() ==> lists_grants(
                (#[trigger] list@[i]).1@,
                users[list@[i].0@].grants,
            ),
    }
}

/// `CREATE FUNCTION`. The function is logged before it is registered, whether it compiles or
/// not.
pub open spec fn function_created(
    v: KernelV,
    name: Seq<char>,
    kind: crate::ast::TriggerKindV,
    caps: crate::ast::Cap,
    body: Seq<char>,
    inputs: &Inputs,
    r: Result<Action, ExecError>,
    after: KernelV,
) -> bool {
    if !inputs.compiled@.contains_key(body) {
        fails_with(r, ExecErrorV::PendingCode(body)) && after == v
    } else {
        let f = FunctionV { name, source: body, kind, caps, next: first_fire(kind, inputs.now_ms) };
        let (ok, service) = noted_on_active(
            v.service,
            schema_record(StmtV::CreateFunction { name, kind, caps, body }),
        );
        if !ok {
            fails_with(r, log_failure()) && after == (KernelV { service, ..v })
        } else {
            &&& after == (KernelV {
                service,
                functions: registered(v.functions, f, inputs.compiled@[body] is Ok),
                ..v
            })
            &&& match inputs.compiled@[body] {
                Ok(_) => is_empty_answer(r),
                Err(why) => fails_with(r, ExecErrorV::Io("lua compile: "@ + why@)),
            }
        }
    }
}

pub open spec fn unknown_function(name: Seq<char>) -> ExecErrorV {
    ExecErrorV::InvalidExpr("unknown function: "@ + name)
}

/// The lens that a plain append writes to.
pub open spec fn written_lens(stmt: &Stmt) -> Option<Seq<char>> {
    match *stmt {
        Stmt::Append { name, .. } => Some(name@),
        Stmt::BatchAppend { name, .. } => Some(name@),
        _ => None,
    }
}

/// The rows that a plain append writes.
pub open spec fn written_rows(stmt: &Stmt, inputs: &Inputs) -> Result<Seq<Row>, ExecErrorV> {
    match *stmt {
        Stmt::Append { taus, .. } => literal_rows(taus@, &inputs.floats),
        Stmt::BatchAppend { taus, .. } => literal_rows(taus@, &inputs.floats),
        _ => Ok(Seq::empty()),
    }
}

/// Some function watches what the statement writes. Inside a trigger none does.
pub open spec fn sets_off(v: KernelV, stmt: &Stmt) -> bool {
    v.depth == 0 && written_lens(stmt) is Some && exists|i: int|
        0 <= i < v.functions.len() && watches(#[trigger] v.functions[i], written_lens(stmt)->Some_0)
}

/// A statement that the database service executes. After a successful append the functions
/// that watch the lens are to run.
pub open spec fn changed(
    v: KernelV,
    threshold: usize,
    backend: StorageBackend,
    stmt: &Stmt,
    inputs: &Inputs,
    r: Result<Action, ExecError>,
    after: KernelV,
) -> bool {
    if sets_off(v, stmt) {
        match written_rows(stmt, inputs) {
            Err(e) => fails_with(r, e) && after == v,
            Ok(rows) => {
                &&& after == (KernelV { service: after.service, ..v })
                &&& executed(
                    v.service,
                    threshold,
                    backend,
                    stmt,
                    inputs,
                    outcome(r),
                    after.service,
                )
                &&& r matches Ok(action) ==> (action matches Action::Trigger {
                    lens,
                    rows: given,
                    places: at,
                } && lens@ == written_lens(stmt)->Some_0 && given@ == rows && places(
                    v.functions,
                    |f: FunctionV| watches(f, written_lens(stmt)->Some_0),
                    at@,
                ))
            },
        }
    } else {
        &&& after == (KernelV { service: after.service, ..v })
        &&& executed(v.service, threshold, backend, stmt, inputs, outcome(r), after.service)
        &&& r is Ok ==> is_empty_answer(r)
    }
}

pub open spec fn outcome(r: Result<Action, ExecError>) -> Result<(), ExecErrorV> {
    match r {
        Ok(_) => Ok(()),
        Err(e) => Err(e@),
    }
}

/// What a statement does.
pub open spec fn routed(
    v: KernelV,
    threshold: usize,
    backend: StorageBackend,
    stmt: &Stmt,
    inputs: &Inputs,
    r: Result<Action, ExecError>,
    after: KernelV,
) -> bool {
    match *stmt {
        Stmt::ShowUsers => after == v && (r matches Ok(Action::Done(Output::Names(names)))
            && lists_keys(names@, v.users)),
        Stmt::ShowGrants { user } => after == v && grants_shown(v.users, opt_text(user), r),
        Stmt::CreateUser { name, password } => if v.users.contains_key(name@) {
            fails_with(r, ExecErrorV::DuplicateUser(name@)) && after == v
        } else {
            is_empty_answer(r) && after == (KernelV {
                users: v.users.insert(
                    name@,
                    UserV { name: name@, secret: password@, grants: Map::empty() },
                ),
                ..v
            })
        },
        Stmt::DropUser { name } => if v.users.contains_key(name@) {
            is_empty_answer(r) && after == (KernelV { users: v.users.remove(name@), ..v })
        } else {
            fails_with(r, ExecErrorV::UnknownUser(name@)) && after == v
        },
        Stmt::Grant { perms, database, user } => if v.users.contains_key(user@) {
            is_empty_answer(r) && after == (KernelV {
                users: granted(v.users, user@, database@, perms),
                ..v
            })
        } else {
            fails_with(r, ExecErrorV::UnknownUser(user@)) && after == v
        },
        Stmt::Revoke { perms, database, user } => if v.users.contains_key(user@) {
            is_empty_answer(r) && after == (KernelV {
                users: revoked(v.users, user@, database@, perms),
                ..v
            })
        } else {
            fails_with(r, ExecErrorV::UnknownUser(user@)) && after == v
        },
        Stmt::ShowFunctions => after == v && (r matches Ok(Action::Done(Output::Names(names)))
            && name_texts(names@) == v.functions.map_values(|f: FunctionV| f.name)),
        Stmt::CreateFunction { name, kind, caps, body } => function_created(
            v,
            name@,
            kind@,
            caps,
            body@,
            inputs,
            r,
            after,
        ),
        Stmt::DropFunction { name } => if has_function(v.functions, name@) {
            let (ok, service) = noted_on_active(
                v.service,
                schema_record(StmtV::DropFunction { name: name@ }),
            );
            if !ok {
                fails_with(r, log_failure()) && after == (KernelV { service, ..v })
            } else {
                is_empty_answer(r) && after == (KernelV {
                    service,
                    functions: without_function(v.functions, name@),
                    ..v
                })
            }
        } else {
            fails_with(r, unknown_function(name@)) && after == v
        },
        Stmt::CallFunction { name, .. } => after == v && if has_function(v.functions, name@) {
            r matches Ok(Action::Call { place }) && place == place_of(v.functions, name@)
        } else {
            fails_with(r, unknown_function(name@))
        },
        _ => if stmt.reads_only() && !(stmt is BackupDatabase) {
            &&& after == v
            &&& r matches Ok(action) ==> action is Done
            &&& answers(
                v.service.databases,
                v.service.active,
                stmt,
                inputs,
                answer_of(r),
            )
        } else {
            changed(v, threshold, backend, stmt, inputs, r, after)
        },
    }
}

/// A statement executed on behalf of a user: only one that is known, has the permissions
/// that the statement demands and is not denied by a hook gets to execute it. Of the
/// databases, they are shown those on which they have some permission.
pub open spec fn routed_as(
    v: KernelV,
    threshold: usize,
    backend: StorageBackend,
    stmt: &Stmt,
    caller: Seq<char>,
    hooks: Seq<HookReturn>,
    inputs: &Inputs,
    r: Result<Action, ExecError>,
    after: KernelV,
) -> bool {
    if !v.users.contains_key(caller) {
        fails_with(r, ExecErrorV::UnknownUser(caller)) && after == v
    } else {
        let user = v.users[caller];
        match permission_of(stmt, user, v.service.active) {
            Err(e) => fails_with(r, e) && after == v,
            Ok(()) => if some_refusal(hooks) {
                fails_with(r, ExecErrorV::PermissionDenied("denied by permission hook"@)) && after
                    == v
            } else if stmt is ShowDatabases && !user.is_global_admin() {
                after == v && (r matches Ok(Action::Done(Output::Names(names)))
                    && exists|all: Seq<String>|
                    lists_keys(all, v.service.databases) && name_texts(names@)
                        == #[trigger] visible_names(all, user))
            } else {
                routed(v, threshold, backend, stmt, inputs, r, after)
            },
        }
    }
}

/// A user without the permissions that a statement demands changes nothing by it.
pub proof fn law_refused_statement_changes_nothing(
    v: KernelV,
    threshold: usize,
    backend: StorageBackend,
    stmt: &Stmt,
    caller: Seq<char>,
    hooks: Seq<HookReturn>,
    inputs: &Inputs,
    r: Result<Action, ExecError>,
    after: KernelV,
)
    requires
        routed_as(v, threshold, backend, stmt, caller, hooks, inputs, r, after),
        !v.users.contains_key(caller) || permission_of(
            stmt,
            v.users[caller],
            v.service.active,
        ) is Err || some_refusal(hooks),
    ensures
        r is Err,
        after == v,
{
}

/// A read-only statement leaves the kernel as it is, but for a backup, which waits to be
/// written.
pub proof fn law_reads_change_nothing(
    v: KernelV,
    threshold: usize,
    backend: StorageBackend,
    stmt: &Stmt,
    inputs: &Inputs,
    r: Result<Action, ExecError>,
    after: KernelV,
)
    requires
        routed(v, threshold, backend, stmt, inputs, r, after),
        stmt.reads_only(),
    ensures
        after.users == v.users,
        after.functions == v.functions,
        after.service.databases == v.service.databases,
        after.service.active == v.service.active,
        after.service.pending == v.service.pending,
        !(stmt is BackupDatabase) ==> after == v,
{
}

/// While a transaction is open, statements on lenses change no database.
pub proof fn law_open_transaction_changes_no_database(
    v: KernelV,
    threshold: usize,
    backend: StorageBackend,
    stmt: &Stmt,
    inputs: &Inputs,
    r: Result<Action, ExecError>,
    after: KernelV,
)
    requires
        routed(v, threshold, backend, stmt, inputs, r, after),
        v.service.pending is Some,
        stmt.lens_change(),
    ensures
        after.service.databases == v.service.databases,
        r is Ok ==> after.service.pending == Some(
            v.service.pending->Some_0.push((v.service.active, *stmt)),
        ),
{
}

/// `ROLLBACK` forgets the transaction, and every database is as it was.
pub proof fn law_rollback_discards(
    v: KernelV,
    threshold: usize,
    backend: StorageBackend,
    stmt: &Stmt,
    inputs: &Inputs,
    r: Result<Action, ExecError>,
    after: KernelV,
)
    requires
        routed(v, threshold, backend, stmt, inputs, r, after),
        stmt is Rollback,
        v.service.pending is Some,
    ensures
        r is Ok,
        after.service == (ServiceV { pending: None, ..v.service }),
{
}

/// Inside a trigger no append sets off another.
pub proof fn law_triggers_do_not_nest(
    v: KernelV,
    threshold: usize,
    backend: StorageBackend,
    stmt: &Stmt,
    inputs: &Inputs,
    r: Result<Action, ExecError>,
    after: KernelV,
)
    requires
        routed(v, threshold, backend, stmt, inputs, r, after),
        v.depth > 0,
    ensures
        r matches Ok(action) ==> !(action is Trigger),
{
}

/// The statement waits for an input, and is to be executed again.
pub open spec fn waits(r: Result<Action, ExecError>) -> bool {
    r is Err && r->Err_0@.wants_input()
}

/// The kernel with a statement counted that took a time.
pub open spec fn with_count(v: KernelV, stmt: &Stmt, ns: u64) -> KernelV {
    KernelV {
        metrics: statement_counted(v.metrics, op_of(stmt), ns, v.service.active),
        ..v
    }
}

/// What was measured while a statement was carried out: its time, and the merges and log writes
/// that it led to.
pub struct Tally {
    pub ns: u64,
    pub events: Seq<StoreEvent>,
}

/// An event of a store as the metrics know it.
pub open spec fn metric_of(event: StoreEvent) -> MetricEvent {
    match event {
        StoreEvent::LogWrite { ns } => MetricEvent::WalWrite { ns },
        StoreEvent::Merge => MetricEvent::Compaction,
    }
}

/// The metrics with events of stores counted.
pub open spec fn all_counted(m: MetricsV, events: Seq<StoreEvent>) -> MetricsV
    decreases events.len(),
{
    if events.len() == 0 {
        m
    } else {
        all_counted(m, events.drop_last()).counted(metric_of(events.last()))
    }
}

/// A statement is counted once it has been carried out, whether it succeeded or failed, and
/// before it the merges and the log writes of layers that it led to.
pub open spec fn recorded(
    routed: KernelV,
    stmt: &Stmt,
    r: Result<Action, ExecError>,
    tally: Tally,
) -> KernelV {
    if waits(r) {
        routed
    } else {
        with_count(
            KernelV {
                metrics: all_counted(routed.metrics, tally.events),
                service: quiet(routed.service),
                ..routed
            },
            stmt,
            tally.ns,
        )
    }
}

/// The user is known, has the permissions that the statement demands and is not denied by a
/// hook.
pub open spec fn admitted(
    v: KernelV,
    stmt: &Stmt,
    caller: Seq<char>,
    hooks: Seq<HookReturn>,
) -> bool {
    v.users.contains_key(caller) && permission_of(stmt, v.users[caller], v.service.active) is Ok
        && !some_refusal(hooks)
}

/// The statement has no source that is known not to compile.
pub open spec fn no_bad_source(stmt: &Stmt, inputs: &Inputs) -> bool {
    match *stmt {
        Stmt::CreateFunction { body, .. } => inputs.compiled@.contains_key(body@)
            ==> inputs.compiled@[body@] is Ok,
        _ => true,
    }
}

/// A statement that fails changes no user, no function and no database. Of a statement that
/// writes rows this is said where the log could not be written, and of one that creates a
/// function where its source compiles.
pub proof fn law_failed_statement_leaves_everything(
    v: KernelV,
    threshold: usize,
    backend: StorageBackend,
    stmt: &Stmt,
    inputs: &Inputs,
    r: Result<Action, ExecError>,
    after: KernelV,
)
    requires
        routed(v, threshold, backend, stmt, inputs, r, after),
        r is Err,
        is_undone(r->Err_0@) || !writes_rows(stmt),
        no_bad_source(stmt, inputs),
    ensures
        after.users == v.users,
        after.functions == v.functions,
        after.service.databases == v.service.databases,
        after.service.active == v.service.active,
{
    match *stmt {
        Stmt::CreateFunction { name, kind, caps, body } => {
            let record = schema_record(
                StmtV::CreateFunction { name: name@, kind: kind@, caps, body: body@ },
            );
            lemma_unnoted(v.service, record);
        },
        Stmt::DropFunction { name } => {
            lemma_unnoted(v.service, schema_record(StmtV::DropFunction { name: name@ }));
        },
        _ => {
            if after.service != v.service {
                let e = r->Err_0@;
                assert(executed(
                    v.service,
                    threshold,
                    backend,
                    stmt,
                    inputs,
                    Err(e),
                    after.service,
                ));
                law_failed_change_leaves_databases(
                    v.service,
                    threshold,
                    backend,
                    stmt,
                    inputs,
                    Err(e),
                    after.service,
                );
            }
        },
    }
}

/// What could not be noted leaves the databases as they are.
proof fn lemma_unnoted(v: ServiceV, record: RecordV<Value>)
    ensures
        !noted_on_active(v, record).0 ==> noted_on_active(v, record).1.databases == v.databases,
        noted_on_active(v, record).1.active == v.active,
{
    if !noted_on_active(v, record).0 {
        assert(noted_on_active(v, record).1.databases =~= v.databases);
    }
}

/// A statement is routed, and counted with the time that it took and what it led to.
pub open spec fn carried_out(
    v: KernelV,
    threshold: usize,
    backend: StorageBackend,
    stmt: &Stmt,
    inputs: &Inputs,
    r: Result<Action, ExecError>,
    after: KernelV,
) -> bool {
    exists|mid: KernelV, tally: Tally|
        routed(v, threshold, backend, stmt, inputs, r, mid) && (waits(r) || awaiting_count(
            mid.service,
            kinds(tally.events),
        )) && after == #[trigger] recorded(mid, stmt, r, tally)
}

/// A statement is routed on behalf of a user, and counted where the user is admitted.
pub open spec fn carried_out_as(
    v: KernelV,
    threshold: usize,
    backend: StorageBackend,
    stmt: &Stmt,
    caller: Seq<char>,
    hooks: Seq<HookReturn>,
    inputs: &Inputs,
    r: Result<Action, ExecError>,
    after: KernelV,
) -> bool {
    exists|mid: KernelV, tally: Tally|
        routed_as(v, threshold, backend, stmt, caller, hooks, inputs, r, mid) && (waits(r)
            || !admitted(v, stmt, caller, hooks) || awaiting_count(
            mid.service,
            kinds(tally.events),
        )) && after == if admitted(v, stmt, caller, hooks) {
            #[trigger] recorded(mid, stmt, r, tally)
        } else {
            mid
        }
}

/// Every statement that is carried out is counted once under its kind, whether it succeeds or
/// fails.
pub proof fn law_every_statement_is_counted(
    v: KernelV,
    threshold: usize,
    backend: StorageBackend,
    stmt: &Stmt,
    inputs: &Inputs,
    r: Result<Action, ExecError>,
    after: KernelV,
)
    requires
        v.wf(),
        carried_out(v, threshold, backend, stmt, inputs, r, after),
        !waits(r),
    ensures
        after.metrics.ops[op_of(stmt).place()].count == one_more(
            v.metrics.ops[op_of(stmt).place()].count,
        ),
{
    let (mid, tally) = choose|mid: KernelV, tally: Tally|
        routed(v, threshold, backend, stmt, inputs, r, mid) && (waits(r) || awaiting_count(
            mid.service,
            kinds(tally.events),
        )) && after == #[trigger] recorded(mid, stmt, r, tally);
    assert(mid.metrics == v.metrics);
    lemma_events_keep_ops(v.metrics, tally.events);
}

proof fn lemma_events_keep_ops(m: MetricsV, events: Seq<StoreEvent>)
    ensures
        all_counted(m, events).ops == m.ops,
    decreases events.len(),
{
    if events.len() > 0 {
        lemma_events_keep_ops(m, events.drop_last());
    }
}

/// How many of the events are of a kind.
pub open spec fn occurrences(events: Seq<EventKind>, kind: EventKind) -> nat
    decreases events.len(),
{
    if events.len() == 0 {
        0
    } else {
        occurrences(events.drop_last(), kind) + if events.last() == kind {
            1nat
        } else {
            0nat
        }
    }
}

/// A counter after so many more.
pub open spec fn raised(n: u64, by: nat) -> u64 {
    ((n + by) % 0x1_0000_0000_0000_0000) as u64
}

proof fn lemma_events_counted(m: MetricsV, events: Seq<StoreEvent>)
    ensures
        all_counted(m, events).compactions == raised(
            m.compactions,
            occurrences(kinds(events), EventKind::Merge),
        ),
        all_counted(m, events).wal.count == raised(
            m.wal.count,
            occurrences(kinds(events), EventKind::LogWrite),
        ),
    decreases events.len(),
{
    if events.len() > 0 {
        let less = events.drop_last();
        lemma_events_counted(m, less);
        assert(kinds(events).drop_last() =~= kinds(less));
        assert(kinds(events).last() == kind_of(events.last()));
    }
}

/// Once a statement has been carried out, each merge that it led to is counted as a compaction
/// and each log write of a layer is observed, and nothing waits to be counted.
pub proof fn law_merges_and_log_writes_are_counted(
    v: KernelV,
    threshold: usize,
    backend: StorageBackend,
    stmt: &Stmt,
    inputs: &Inputs,
    r: Result<Action, ExecError>,
    after: KernelV,
)
    requires
        carried_out(v, threshold, backend, stmt, inputs, r, after),
        !waits(r),
    ensures
        exists|mid: KernelV, events: Seq<EventKind>| #[trigger]
            awaiting_count(mid.service, events) && routed(
                v,
                threshold,
                backend,
                stmt,
                inputs,
                r,
                mid,
            ) && after.service == quiet(mid.service) && after.metrics.compactions == raised(
                v.metrics.compactions,
                occurrences(events, EventKind::Merge),
            ) && after.metrics.wal.count == raised(
                v.metrics.wal.count,
                occurrences(events, EventKind::LogWrite),
            ),
        quiet(after.service) == after.service,
{
    let (mid, tally) = choose|mid: KernelV, tally: Tally|
        routed(v, threshold, backend, stmt, inputs, r, mid) && (waits(r) || awaiting_count(
            mid.service,
            kinds(tally.events),
        )) && after == #[trigger] recorded(mid, stmt, r, tally);
    assert(mid.metrics == v.metrics);
    lemma_events_counted(v.metrics, tally.events);
    assert(awaiting_count(mid.service, kinds(tally.events)));
    assert(quiet(after.service).databases =~= after.service.databases);
}

fn copy_kind(kind: &TriggerKind) -> (r: TriggerKind)
    ensures
        r@ == kind@,
{
    match kind {
        TriggerKind::OnDemand => TriggerKind::OnDemand,
        TriggerKind::OnWrite { lens } => {
            let lens: Option<String> = match lens {
                Some(name) => Some(name.clone()),
                None => None,
            };
            TriggerKind::OnWrite { lens }
        },
        TriggerKind::OnPermission => TriggerKind::OnPermission,
        TriggerKind::Cron { every_secs } => TriggerKind::Cron { every_secs: *every_secs },
    }
}

fn no_such_function(name: &str) -> (r: ExecError)
    ensures
        r@ == unknown_function(name@),
{
    let mut out = owned("unknown function: ");
    out.append(name);
    ExecError::InvalidExpr(out)
}

/// What a plain append writes, for the functions that watch it.
pub fn extract_write_info<'a>(stmt: &'a Stmt, inputs: &Inputs) -> (r: Option<
    (&'a String, Result<Vec<Row>, ExecError>),
>)
    ensures
        match r {
            None => written_lens(stmt) is None,
            Some((lens, rows)) => written_lens(stmt) == Some(lens@) && match written_rows(
                stmt,
                inputs,
            ) {
                Ok(given) => rows is Ok && rows->Ok_0@ == given,
                Err(e) => rows is Err && rows->Err_0@ == e,
            },
        },
{
    match stmt {
        Stmt::Append { name, taus } => Some((name, literal_taus(taus, &inputs.floats))),
        Stmt::BatchAppend { name, taus } => Some((name, literal_taus(taus, &inputs.floats))),
        _ => None,
    }
}

impl Default for Kernel {
    fn default() -> (r: Self)
        ensures
            r@.wf(),
            r@ == empty_kernel(),
            r.db.backend is Memory,
            r.db.compact_threshold == COMPACT_THRESHOLD,
            r.tick == 0,
    {
        Kernel::new()
    }
}

impl Kernel {
    /// A kernel that keeps nothing beyond the process.
    pub fn new() -> (r: Self)
        ensures
            r@.wf(),
            r@ == empty_kernel(),
            r.db.backend is Memory,
            r.db.compact_threshold == COMPACT_THRESHOLD,
            r.tick == 0,
    {
        Self::with_threshold(COMPACT_THRESHOLD)
    }

    /// As `new`, with a threshold of its own for compaction.
    pub fn with_threshold(compact_threshold: usize) -> (r: Self)
        ensures
            r@.wf(),
            r@ == empty_kernel(),
            r.db.backend is Memory,
            r.db.compact_threshold == compact_threshold,
            r.tick == 0,
    {
        Self::with_backend(StorageBackend::Memory, compact_threshold)
    }

    /// A kernel whose databases keep their layers as the backend says.
    pub fn with_backend(backend: StorageBackend, compact_threshold: usize) -> (r: Self)
        ensures
            r@.wf(),
            r@ == empty_kernel(),
            r.db.backend == backend,
            r.db.compact_threshold == compact_threshold,
            r.tick == 0,
            r.clock.pinned() is None,
            r.slab@.wf(),
            r.service_handles@.len() == 4,
            forall|i: int|
                0 <= i < 4 ==> r.slab@.slot_of(#[trigger] r.service_handles@[i]) == Some(
                    Slot::Service,
                ),
    {
        let mut slab = Slab::new();
        let mut service_handles: Vec<RawHandle> = Vec::new();
        let mut i: usize = 0;
        while i < 4
            invariant
                i <= 4,
                slab@.wf(),
                slab@.entries.len() == i,
                slab@.free.len() == 0,
                service_handles@.len() == i,
                forall|k: int|
                    0 <= k < i ==> slab@.slot_of(#[trigger] service_handles@[k]) == Some(
                        Slot::Service,
                    ),
            decreases 4 - i,
        {
            let ghost before = slab@;
            let r = slab.insert(Slot::Service);
            if let Ok(h) = r {
                proof {
                    assert forall|k: int| 0 <= k < i implies slab@.slot_of(
                        #[trigger] service_handles@[k],
                    ) == Some(Slot::Service) by {
                        crate::handle::law_new_handle_is_fresh(
                            before,
                            Slot::Service,
                            service_handles@[k],
                        );
                    }
                    crate::handle::law_new_handle_is_fresh(before, Slot::Service, h);
                }
                service_handles.push(h);
            }
            i = i + 1;
        }
        Kernel {
            db: DbService::new(backend, compact_threshold),
            auth: AuthService::new(UserStore::new()),
            functions: FunctionTable::new(),
            metrics: Metrics::new(),
            clock: Clock::system(),
            slab,
            tick: 0,
            depth: 0,
            service_handles,
        }
    }

    fn read_stmt(&self, stmt: &Stmt, inputs: &Inputs) -> (r: Result<Output, ExecError>)
        requires
            self@.wf(),
        ensures
            answers(self@.service.databases, self@.service.active, stmt, inputs, r),
    {
        proof {
            crate::service::lemma_sound(&self.db);
        }
        let query = QueryService { registry: &self.db.registry };
        query.exec_read(stmt, inputs)
    }

    fn show_grants(&self, target: &Option<String>) -> (r: Result<Action, ExecError>)
        ensures
            grants_shown(self@.users, opt_text(*target), r),
    {
        let mut out: Vec<(String, Vec<(String, Perm)>)> = Vec::new();
        match target {
            Some(name) => match self.auth.list_grants(name.as_str()) {
                Some(list) => {
                    out.push((name.clone(), list));
                    Ok(Action::Done(Output::Grants(out)))
                },
                None => Err(ExecError::UnknownUser(name.clone())),
            },
            None => {
                let names = self.auth.list_users();
                let mut i: usize = 0;
                while i < names.len()
                    invariant
                        i <= names@.len(),
                        lists_keys(names@, self@.users),
                        out@.len() == i,
                        forall|k: int|
                            0 <= k < i ==> (#[trigger] out@[k]).0 == names@[k] && lists_grants(
                                out@[k].1@,
                                self@.users[names@[k]@].grants,
                            ),
                    decreases names@.len() - i,
                {
                    assert(listed(names@, names@[i as int]@));
                    if let Some(list) = self.auth.list_grants(names[i].as_str()) {
                        out.push((names[i].clone(), list));
                    }
                    i = i + 1;
                }
                proof {
                    let firsts = out@.map_values(|g: (String, Vec<(String, Perm)>)| g.0);
                    assert(firsts =~= names@);
                }
                Ok(Action::Done(Output::Grants(out)))
            },
        }
    }

    fn create_function(
        &mut self,
        name: &String,
        kind: &TriggerKind,
        caps: crate::ast::Cap,
        body: &String,
        inputs: &Inputs,
    ) -> (r: Result<Action, ExecError>)
        requires
            old(self)@.wf(),
        ensures
            final(self)@.wf(),
            keeps_rest(&*old(self), &*final(self)),
            function_created(old(self)@, name@, kind@, caps, body@, inputs, r, final(self)@),
    {
        let compiled: Result<(), String> = match inputs.compiled.get(body.as_str()) {
            None => {
                return Err(ExecError::PendingCode(body.clone()));
            },
            Some(Ok(_)) => Ok(()),
            Some(Err(why)) => Err(why.clone()),
        };
        let text = create_function_text(name.as_str(), kind, caps, body.as_str());
        if let Err(e) = self.db.append_schema_active(text.as_str()) {
            return Err(e);
        }
        match self.functions.register(
            name.as_str(),
            copy_kind(kind),
            caps,
            body.as_str(),
            inputs.now_ms,
            compiled,
        ) {
            Ok(()) => Ok(Action::Done(Output::Empty)),
            Err(why) => {
                let mut out = owned("lua compile: ");
                out.append(why.as_str());
                Err(ExecError::Io(out))
            },
        }
    }

    fn change(&mut self, stmt: &Arc<Stmt>, inputs: &Inputs) -> (r: Result<Action, ExecError>)
        requires
            old(self)@.wf(),
            inputs.wf(),
        ensures
            final(self)@.wf(),
            keeps_rest(&*old(self), &*final(self)),
            changed(
                old(self)@,
                old(self).db.compact_threshold,
                old(self).db.backend,
                &**stmt,
                inputs,
                r,
                final(self)@,
            ),
    {
        let ghost v = self@;
        if self.depth == 0 {
            if let Some((lens, rows)) = extract_write_info(stmt, inputs) {
                let at = self.functions.on_write(lens.as_str());
                let ghost p = |f: FunctionV| watches(f, lens@);
                if at.len() > 0 {
                    proof {
                        assert(p(v.functions[at@[0] as int]));
                        assert(watches(v.functions[at@[0] as int], lens@));
                        assert(sets_off(v, &**stmt));
                    }
                    let given: Vec<Row> = match rows {
                        Ok(given) => given,
                        Err(e) => {
                            return Err(e);
                        },
                    };
                    return match self.db.execute(stmt, inputs) {
                        Ok(()) => Ok(
                            Action::Trigger { lens: lens.clone(), rows: given, places: at },
                        ),
                        Err(e) => Err(e),
                    };
                }
                proof {
                    if sets_off(v, &**stmt) {
                        let i = choose|i: int|
                            0 <= i < v.functions.len() && watches(
                                #[trigger] v.functions[i],
                                written_lens(&**stmt)->Some_0,
                            );
                        assert(p(v.functions[i]));
                    }
                }
            }
        }
        match self.db.execute(stmt, inputs) {
            Ok(()) => Ok(Action::Done(Output::Empty)),
            Err(e) => Err(e),
        }
    }

    /// Routes a statement to the service that owns it, as far as the kernel can complete it:
    /// the action says what is left to do.
    pub fn route(&mut self, stmt: &Arc<Stmt>, inputs: &Inputs) -> (r: Result<Action, ExecError>)
        requires
            old(self)@.wf(),
            inputs.wf(),
        ensures
            final(self)@.wf(),
            keeps_rest(&*old(self), &*final(self)),
            routed(
                old(self)@,
                old(self).db.compact_threshold,
                old(self).db.backend,
                &**stmt,
                inputs,
                r,
                final(self)@,
            ),
    {
        match &**stmt {
            Stmt::ShowUsers => Ok(Action::Done(Output::Names(self.auth.list_users()))),
            Stmt::ShowGrants { user } => self.show_grants(user),
            Stmt::CreateUser { name, password } => match self.auth.create_user(
                name.as_str(),
                password.as_str(),
                NameMap::new(),
            ) {
                Ok(()) => Ok(Action::Done(Output::Empty)),
                Err(_) => Err(ExecError::DuplicateUser(name.clone())),
            },
            Stmt::DropUser { name } => {
                let known: bool = self.auth.users().get(name.as_str()).is_some();
                if !known {
                    return Err(ExecError::UnknownUser(name.clone()));
                }
                let _ = self.auth.remove_user(name.as_str());
                Ok(Action::Done(Output::Empty))
            },
            Stmt::Grant { perms, database, user } => match self.auth.grant(
                user.as_str(),
                database.as_str(),
                *perms,
            ) {
                Ok(_) => Ok(Action::Done(Output::Empty)),
                Err(_) => Err(ExecError::UnknownUser(user.clone())),
            },
            Stmt::Revoke { perms, database, user } => match self.auth.revoke(
                user.as_str(),
                database.as_str(),
                *perms,
            ) {
                Ok(_) => Ok(Action::Done(Output::Empty)),
                Err(_) => Err(ExecError::UnknownUser(user.clone())),
            },
            Stmt::ShowFunctions => Ok(Action::Done(Output::Names(self.functions.list()))),
            Stmt::CreateFunction { name, kind, caps, body } => self.create_function(
                name,
                kind,
                *caps,
                body,
                inputs,
            ),
            Stmt::DropFunction { name } => {
                if self.functions.position(name.as_str()).is_none() {
                    return Err(no_such_function(name.as_str()));
                }
                let text = drop_function_text(name.as_str());
                if let Err(e) = self.db.append_schema_active(text.as_str()) {
                    return Err(e);
                }
                let _ = self.functions.drop_fn(name.as_str());
                Ok(Action::Done(Output::Empty))
            },
            Stmt::CallFunction { name, .. } => match self.functions.position(name.as_str()) {
                Some(place) => Ok(Action::Call { place }),
                None => Err(no_such_function(name.as_str())),
            },
            Stmt::BackupDatabase { .. } => self.change(stmt, inputs),
            other => {
                if other.is_read_only() {
                    match self.read_stmt(other, inputs) {
                        Ok(out) => Ok(Action::Done(out)),
                        Err(e) => Err(e),
                    }
                } else {
                    self.change(stmt, inputs)
                }
            },
        }
    }

    /// Routes a statement on behalf of a user. `hooks` is what the permission hooks returned
    /// for it.
    pub fn route_as(
        &mut self,
        stmt: &Arc<Stmt>,
        caller: &str,
        hooks: &Vec<HookReturn>,
        inputs: &Inputs,
    ) -> (r: Result<Action, ExecError>)
        requires
            old(self)@.wf(),
            inputs.wf(),
        ensures
            final(self)@.wf(),
            keeps_rest(&*old(self), &*final(self)),
            routed_as(
                old(self)@,
                old(self).db.compact_threshold,
                old(self).db.backend,
                &**stmt,
                caller@,
                hooks@,
                inputs,
                r,
                final(self)@,
            ),
    {
        let ghost v = self@;
        let user: User = match self.auth.users().get(caller) {
            Some(user) => user.dup(),
            None => {
                return Err(ExecError::UnknownUser(owned(caller)));
            },
        };
        let active = self.db.active();
        if let Err(e) = check_permission(stmt, &user, &active) {
            return Err(e);
        }
        if let PermissionVerdict::Deny(why) = judge(hooks) {
            return Err(ExecError::PermissionDenied(why));
        }
        match self.route(stmt, inputs) {
            Ok(Action::Done(out)) => {
                let ghost all = out->Names_0@;
                let shown = filter_show_databases(out, stmt, &user);
                proof {
                    assert(lists_keys(all, v.service.databases) ==> (shown is Names
                        && name_texts(shown->Names_0@) == visible_names(all, user@))
                        || !(&**stmt is ShowDatabases) || user@.is_global_admin());
                }
                Ok(Action::Done(shown))
            },
            other => other,
        }
    }

    /// Executes a statement that must not change anything.
    pub fn exec_read(&mut self, stmt: &Arc<Stmt>, inputs: &Inputs) -> (r: Result<Action, ExecError>)
        requires
            old(self)@.wf(),
            inputs.wf(),
        ensures
            final(self)@.wf(),
            keeps_rest(&*old(self), &*final(self)),
            if stmt.reads_only() {
                carried_out(
                    old(self)@,
                    old(self).db.compact_threshold,
                    old(self).db.backend,
                    &**stmt,
                    inputs,
                    r,
                    final(self)@,
                )
            } else {
                fails_with(r, not_a_read()) && final(self)@ == old(self)@
            },
    {
        if !stmt.is_read_only() {
            return Err(
                ExecError::InvalidExpr(owned("exec_read called on a mutating statement")),
            );
        }
        self.exec_stmt(stmt, inputs)
    }

    /// As `exec_read`, on behalf of a user.
    pub fn exec_read_as(
        &mut self,
        stmt: &Arc<Stmt>,
        caller: &str,
        hooks: &Vec<HookReturn>,
        inputs: &Inputs,
    ) -> (r: Result<Action, ExecError>)
        requires
            old(self)@.wf(),
            inputs.wf(),
        ensures
            final(self)@.wf(),
            keeps_rest(&*old(self), &*final(self)),
            if stmt.reads_only() {
                carried_out_as(
                    old(self)@,
                    old(self).db.compact_threshold,
                    old(self).db.backend,
                    &**stmt,
                    caller@,
                    hooks@,
                    inputs,
                    r,
                    final(self)@,
                )
            } else {
                fails_with(r, not_a_read()) && final(self)@ == old(self)@
            },
    {
        if !stmt.is_read_only() {
            return Err(
                ExecError::InvalidExpr(owned("exec_read called on a mutating statement")),
            );
        }
        self.exec_stmt_as(stmt, caller, hooks, inputs)
    }

    /// Executes a statement.
    pub fn execute(&mut self, stmt: &Arc<Stmt>, inputs: &Inputs) -> (r: Result<Action, ExecError>)
        requires
            old(self)@.wf(),
            inputs.wf(),
        ensures
            final(self)@.wf(),
            keeps_rest(&*old(self), &*final(self)),
            carried_out(
                old(self)@,
                old(self).db.compact_threshold,
                old(self).db.backend,
                &**stmt,
                inputs,
                r,
                final(self)@,
            ),
    {
        self.exec_stmt(stmt, inputs)
    }

    /// Executes a statement on behalf of a user. `hooks` is what the permission hooks
    /// returned for it.
    pub fn exec_as(
        &mut self,
        stmt: &Arc<Stmt>,
        caller: &str,
        hooks: &Vec<HookReturn>,
        inputs: &Inputs,
    ) -> (r: Result<Action, ExecError>)
        requires
            old(self)@.wf(),
            inputs.wf(),
        ensures
            final(self)@.wf(),
            keeps_rest(&*old(self), &*final(self)),
            carried_out_as(
                old(self)@,
                old(self).db.compact_threshold,
                old(self).db.backend,
                &**stmt,
                caller@,
                hooks@,
                inputs,
                r,
                final(self)@,
            ),
    {
        self.exec_stmt_as(stmt, caller, hooks, inputs)
    }

    /// Whether an executed statement is counted: unless it waits for an input.
    pub fn is_counted(result: &Result<Action, ExecError>) -> (r: bool)
        ensures
            r == !waits(*result),
    {
        match result {
            Ok(_) => true,
            Err(e) => !e.is_pending(),
        }
    }

    /// Executes a statement and counts it.
    pub fn exec_stmt(&mut self, stmt: &Arc<Stmt>, inputs: &Inputs) -> (r: Result<Action, ExecError>)
        requires
            old(self)@.wf(),
            inputs.wf(),
        ensures
            final(self)@.wf(),
            keeps_rest(&*old(self), &*final(self)),
            carried_out(
                old(self)@,
                old(self).db.compact_threshold,
                old(self).db.backend,
                &**stmt,
                inputs,
                r,
                final(self)@,
            ),
    {
        let begun = moment();
        let r = self.route(stmt, inputs);
        let ghost mid = self@;
        let tally = self.tally(stmt, &r, &begun);
        assert(self@ == recorded(mid, &**stmt, r, tally@));
        r
    }

    /// Executes a statement on behalf of a user, and counts it where the user is admitted.
    pub fn exec_stmt_as(
        &mut self,
        stmt: &Arc<Stmt>,
        caller: &str,
        hooks: &Vec<HookReturn>,
        inputs: &Inputs,
    ) -> (r: Result<Action, ExecError>)
        requires
            old(self)@.wf(),
            inputs.wf(),
        ensures
            final(self)@.wf(),
            keeps_rest(&*old(self), &*final(self)),
            carried_out_as(
                old(self)@,
                old(self).db.compact_threshold,
                old(self).db.backend,
                &**stmt,
                caller@,
                hooks@,
                inputs,
                r,
                final(self)@,
            ),
    {
        let begun = moment();
        let routed: bool = self.admits(stmt, caller, hooks);
        let r = self.route_as(stmt, caller, hooks, inputs);
        let ghost mid = self@;
        if routed {
            let tally = self.tally(stmt, &r, &begun);
            assert(self@ == recorded(mid, &**stmt, r, tally@));
        } else {
            proof {
                let counted = recorded(mid, &**stmt, r, arbitrary());
            }
        }
        r
    }

    /// Whether a user may have a statement executed. `hooks` is what the permission hooks
    /// returned for it.
    pub fn admits(&self, stmt: &Stmt, caller: &str, hooks: &Vec<HookReturn>) -> (r: bool)
        ensures
            r == admitted(self@, stmt, caller@, hooks@),
    {
        match self.auth.users().get(caller) {
            Some(user) => {
                let active = self.db.active();
                match check_permission(stmt, user, &active) {
                    Ok(()) => matches!(judge(hooks), PermissionVerdict::Allow),
                    Err(_) => false,
                }
            },
            None => false,
        }
    }

    /// Counts a statement that took a time to execute, and counts it for the active
    /// database.
    pub fn count(&mut self, stmt: &Stmt, ns: u64)
        requires
            old(self)@.wf(),
        ensures
            final(self)@.wf(),
            keeps_rest(&*old(self), &*final(self)),
            final(self)@ == with_count(old(self)@, stmt, ns),
    {
        let op = stmt_to_op(stmt);
        self.metrics.record_op(op, ns);
        if let Some(db) = self.db.active() {
            self.metrics.record_db_op(db.as_str(), op);
        }
    }

    /// Counts a statement that was carried out, with the time since it began, and the merges
    /// and log writes that it led to.
    fn tally(
        &mut self,
        stmt: &Stmt,
        result: &Result<Action, ExecError>,
        begun: &std::time::Instant,
    ) -> (t: Ghost<Tally>)
        requires
            old(self)@.wf(),
        ensures
            final(self)@.wf(),
            keeps_rest(&*old(self), &*final(self)),
            waits(*result) || awaiting_count(old(self)@.service, kinds(t@.events)),
            final(self)@ == recorded(old(self)@, stmt, *result, t@),
    {
        let ns: u64 = nanoseconds_since(begun);
        if !Self::is_counted(result) {
            return Ghost(arbitrary());
        }
        let ghost v = self@;
        let events = self.db.take_events();
        let mut i: usize = 0;
        proof {
            assert(events@.take(0) =~= Seq::empty());
        }
        while i < events.len()
            invariant
                i <= events@.len(),
                self@.wf(),
                keeps_rest(&*old(self), self),
                v == old(self)@,
                self@ == (KernelV {
                    metrics: all_counted(v.metrics, events@.take(i as int)),
                    service: quiet(v.service),
                    ..v
                }),
            decreases events.len() - i,
        {
            let event = match &events[i] {
                StoreEvent::LogWrite { ns } => MetricEvent::WalWrite { ns: *ns },
                StoreEvent::Merge => MetricEvent::Compaction,
            };
            self.metrics.handle_metric_event(event);
            proof {
                assert(events@.take(i + 1).drop_last() =~= events@.take(i as int));
            }
            i += 1;
        }
        proof {
            assert(events@.take(i as int) =~= events@);
        }
        self.count(stmt, ns);
        Ghost(Tally { ns, events: events@ })
    }

    /// Marks that a trigger is running.
    pub fn enter_trigger(&mut self)
        ensures
            keeps_rest(&*old(self), &*final(self)),
            final(self)@ == (KernelV { depth: old(self)@.depth.wrapping_add(1), ..old(self)@ }),
    {
        self.depth = self.depth.wrapping_add(1);
    }

    /// Marks that a trigger is over.
    pub fn leave_trigger(&mut self)
        ensures
            keeps_rest(&*old(self), &*final(self)),
            final(self)@ == (KernelV { depth: old(self)@.depth.wrapping_sub(1), ..old(self)@ }),
    {
        self.depth = self.depth.wrapping_sub(1);
    }

    /// Answers a request to the authentication service.
    pub fn authorize(&mut self, event: AuthEvent) -> (r: Result<AuthResult, SyscallError>)
        ensures
            keeps_rest(&*old(self), &*final(self)),
            auth_answers(old(self)@.users, event, r),
            final(self)@ == (KernelV {
                users: match auth_change(old(self)@.users, event) {
                    Some(users) => users,
                    None => old(self)@.users,
                },
                ..old(self)@
            }),
    {
        self.auth.auth(event)
    }

    /// Counts an event.
    pub fn metric_record(&mut self, event: MetricEvent)
        requires
            old(self)@.wf(),
        ensures
            final(self)@.wf(),
            keeps_rest(&*old(self), &*final(self)),
            final(self)@ == (KernelV { metrics: old(self)@.metrics.counted(event), ..old(self)@ }),
    {
        self.metrics.handle_metric_event(event);
    }

    /// Gives out a handle for a service.
    pub fn allocate(&mut self) -> (r: Result<RawHandle, SyscallError>)
        requires
            old(self).slab@.wf(),
        ensures
            final(self)@ == old(self)@,
            final(self).slab@.wf(),
            match old(self).slab@.inserted(Slot::Service) {
                Some((h, after)) => r == Ok::<RawHandle, SyscallError>(h) && final(self).slab@
                    == after,
                None => r == Err::<RawHandle, SyscallError>(SyscallError::ResourceExhausted)
                    && final(self).slab@ == old(self).slab@,
            },
    {
        self.slab.insert(Slot::Service)
    }

    /// Takes a handle back.
    pub fn deallocate(&mut self, handle: RawHandle) -> (r: Result<(), SyscallError>)
        requires
            old(self).slab@.wf(),
        ensures
            final(self)@ == old(self)@,
            final(self).slab@.wf(),
            final(self).slab@ == old(self).slab@.removed(handle),
            r is Ok <==> old(self).slab@.slot_of(handle) is Some,
            r matches Err(e) ==> e == SyscallError::InvalidHandle,
    {
        if self.slab.remove(handle) {
            Ok(())
        } else {
            Err(SyscallError::InvalidHandle)
        }
    }

    /// Gives out a handle for a resource of the host.
    pub fn register_external(&mut self) -> (r: Result<RawHandle, SyscallError>)
        requires
            old(self).slab@.wf(),
        ensures
            final(self)@ == old(self)@,
            final(self).slab@.wf(),
            match old(self).slab@.inserted(Slot::External) {
                Some((h, after)) => r == Ok::<RawHandle, SyscallError>(h) && final(self).slab@
                    == after,
                None => r == Err::<RawHandle, SyscallError>(SyscallError::ResourceExhausted)
                    && final(self).slab@ == old(self).slab@,
            },
    {
        self.slab.insert(Slot::External)
    }

    /// Whether a handle leads to a resource of the host.
    pub fn external_handler(&self, handle: RawHandle) -> (r: Result<(), SyscallError>)
        ensures
            match self.slab@.slot_of(handle) {
                Some(Slot::External) => r is Ok,
                Some(Slot::Service) => r == Err::<(), SyscallError>(SyscallError::NotSupported),
                None => r == Err::<(), SyscallError>(SyscallError::InvalidHandle),
            },
    {
        match self.slab.get(handle) {
            Some(Slot::External) => Ok(()),
            Some(Slot::Service) => Err(SyscallError::NotSupported),
            None => Err(SyscallError::InvalidHandle),
        }
    }

    /// Moves logical time.
    pub fn advance_to(&mut self, now: u64)
        ensures
            final(self).tick == now,
            final(self)@ == old(self)@,
    {
        self.tick = now;
    }

    /// Logical time.
    pub fn now(&self) -> (r: u64)
        ensures
            r == self.tick,
    {
        self.tick
    }

    /// The name of the active database, if there is one.
    pub fn active(&self) -> (r: Option<String>)
        ensures
            opt_text(r) == self@.service.active,
    {
        self.db.active()
    }

    /// Whether a transaction is open.
    pub fn is_in_transaction(&self) -> (r: bool)
        ensures
            r == (self@.service.pending is Some),
    {
        self.db.is_in_transaction()
    }

    /// Replaces all users.
    pub fn set_users(&mut self, store: UserStore)
        ensures
            keeps_rest(&*old(self), &*final(self)),
            final(self)@ == (KernelV { users: store@, ..old(self)@ }),
    {
        self.auth = AuthService::new(store);
    }
}

pub open spec fn not_a_read() -> ExecErrorV {
    ExecErrorV::InvalidExpr("exec_read called on a mutating statement"@)
}

/// A kernel with nothing in it.
pub open spec fn empty_kernel() -> KernelV {
    KernelV {
        service: ServiceV {
            databases: Map::empty(),
            active: None,
            pending: None,
            faults: -1,
            outbox: Seq::empty(),
        },
        users: Map::empty(),
        functions: Seq::empty(),
        metrics: MetricsV::empty(),
        depth: 0,
    }
}

/// The metrics with a statement counted, for the active database too where there is one.
pub open spec fn statement_counted(
    m: MetricsV,
    op: crate::metrics::Op,
    ns: u64,
    active: Option<Seq<char>>,
) -> MetricsV {
    let one = m.counted(MetricEvent::Op { op, ns });
    match active {
        None => one,
        Some(db) => {
            let counts = one.db_counts(db);
            MetricsV {
                per_db: one.per_db.insert(
                    db,
                    counts.update(op.place(), crate::metrics::one_more(counts[op.place()])),
                ),
                ..one
            }
        },
    }
}

} // verus!
