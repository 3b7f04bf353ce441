//! Counters, latency histograms and their text form.

use crate::ast::Stmt;
use crate::names::NameMap;
use vstd::prelude::*;

verus! {

/// What kind of work a statement is counted as.
#[derive(Debug, Clone, Copy, PartialEq, Eq, Structural)]
pub enum Op {
    Append,
    Copy,
    At,
    Range,
    Reduce,
    History,
    CreateLens,
    DropLens,
    Show,
    Database,
    User,
    Backup,
    Transaction,
}

/// How many kinds of work there are.
pub const OP_COUNT: usize = 13;

impl Op {
    /// The place of this kind among all.
    pub open spec fn place(self) -> int {
        match self {
            Op::Append => 0,
            Op::Copy => 1,
            Op::At => 2,
            Op::Range => 3,
            Op::Reduce => 4,
            Op::History => 5,
            Op::CreateLens => 6,
            Op::DropLens => 7,
            Op::Show => 8,
            Op::Database => 9,
            Op::User => 10,
            Op::Backup => 11,
            Op::Transaction => 12,
        }
    }

    pub fn index(self) -> (r: usize)
        ensures
            r == self.place(),
            r < OP_COUNT,
    {
        match self {
            Op::Append => 0,
            Op::Copy => 1,
            Op::At => 2,
            Op::Range => 3,
            Op::Reduce => 4,
            Op::History => 5,
            Op::CreateLens => 6,
            Op::DropLens => 7,
            Op::Show => 8,
            Op::Database => 9,
            Op::User => 10,
            Op::Backup => 11,
            Op::Transaction => 12,
        }
    }
}

/// The label of the kind at a place.
pub open spec fn label_at(i: int) -> Seq<char> {
    if i == 0 {
        "append"@
    } else if i == 1 {
        "copy"@
    } else if i == 2 {
        "at"@
    } else if i == 3 {
        "range"@
    } else if i == 4 {
        "reduce"@
    } else if i == 5 {
        "history"@
    } else if i == 6 {
        "create_lens"@
    } else if i == 7 {
        "drop_lens"@
    } else if i == 8 {
        "show"@
    } else if i == 9 {
        "database"@
    } else if i == 10 {
        "user"@
    } else if i == 11 {
        "backup"@
    } else {
        "transaction"@
    }
}

/// The label of the kind at a place.
pub fn op_label(i: usize) -> (r: &'static str)
    ensures
        r@ == label_at(i as int),
{
    match i {
        0 => "append",
        1 => "copy",
        2 => "at",
        3 => "range",
        4 => "reduce",
        5 => "history",
        6 => "create_lens",
        7 => "drop_lens",
        8 => "show",
        9 => "database",
        10 => "user",
        11 => "backup",
        _ => "transaction",
    }
}

/// What a statement is counted as.
pub open spec fn op_of(stmt: &Stmt) -> Op {
    match *stmt {
        Stmt::Append { .. } => Op::Append,
        Stmt::BatchAppend { .. } => Op::Append,
        Stmt::AppendNd { .. } => Op::Append,
        Stmt::Copy { .. } => Op::Copy,
        Stmt::At { .. } => Op::At,
        Stmt::AtNd { .. } => Op::At,
        Stmt::AtAsOf { .. } => Op::At,
        Stmt::AtLayer { .. } => Op::At,
        Stmt::Range { .. } => Op::Range,
        Stmt::RangeNd { .. } => Op::Range,
        Stmt::Reduce { .. } => Op::Reduce,
        Stmt::HistoryLens { .. } => Op::History,
        Stmt::Create { .. } => Op::CreateLens,
        Stmt::Derive { .. } => Op::CreateLens,
        Stmt::Xderive { .. } => Op::CreateLens,
        Stmt::SetTtl { .. } => Op::CreateLens,
        Stmt::UnsetTtl { .. } => Op::CreateLens,
        Stmt::Drop { .. } => Op::DropLens,
        Stmt::ShowDatabases => Op::Show,
        Stmt::ShowLenses => Op::Show,
        Stmt::ShowStatus => Op::Show,
        Stmt::ShowUsers => Op::Show,
        Stmt::ShowGrants { .. } => Op::Show,
        Stmt::ShowFunctions => Op::Show,
        Stmt::CreateDatabase { .. } => Op::Database,
        Stmt::DropDatabase { .. } => Op::Database,
        Stmt::UseDatabase { .. } => Op::Database,
        Stmt::CreateUser { .. } => Op::User,
        Stmt::DropUser { .. } => Op::User,
        Stmt::Grant { .. } => Op::User,
        Stmt::Revoke { .. } => Op::User,
        Stmt::BackupDatabase { .. } => Op::Backup,
        Stmt::RestoreDatabase { .. } => Op::Backup,
        Stmt::StartTransaction => Op::Transaction,
        Stmt::Commit => Op::Transaction,
        Stmt::Rollback => Op::Transaction,
        Stmt::CreateFunction { .. } => Op::CreateLens,
        Stmt::DropFunction { .. } => Op::DropLens,
        Stmt::CallFunction { .. } => Op::Transaction,
    }
}

/// What a statement is counted as.
pub fn stmt_to_op(stmt: &Stmt) -> (r: Op)
    ensures
        r == op_of(stmt),
{
    match stmt {
        Stmt::Append { .. } => Op::Append,
        Stmt::BatchAppend { .. } => Op::Append,
        Stmt::AppendNd { .. } => Op::Append,
        Stmt::Copy { .. } => Op::Copy,
        Stmt::At { .. } => Op::At,
        Stmt::AtNd { .. } => Op::At,
        Stmt::AtAsOf { .. } => Op::At,
        Stmt::AtLayer { .. } => Op::At,
        Stmt::Range { .. } => Op::Range,
        Stmt::RangeNd { .. } => Op::Range,
        Stmt::Reduce { .. } => Op::Reduce,
        Stmt::HistoryLens { .. } => Op::History,
        Stmt::Create { .. } => Op::CreateLens,
        Stmt::Derive { .. } => Op::CreateLens,
        Stmt::Xderive { .. } => Op::CreateLens,
        Stmt::SetTtl { .. } => Op::CreateLens,
        Stmt::UnsetTtl { .. } => Op::CreateLens,
        Stmt::Drop { .. } => Op::DropLens,
        Stmt::ShowDatabases => Op::Show,
        Stmt::ShowLenses => Op::Show,
        Stmt::ShowStatus => Op::Show,
        Stmt::ShowUsers => Op::Show,
        Stmt::ShowGrants { .. } => Op::Show,
        Stmt::ShowFunctions => Op::Show,
        Stmt::CreateDatabase { .. } => Op::Database,
        Stmt::DropDatabase { .. } => Op::Database,
        Stmt::UseDatabase { .. } => Op::Database,
        Stmt::CreateUser { .. } => Op::User,
        Stmt::DropUser { .. } => Op::User,
        Stmt::Grant { .. } => Op::User,
        Stmt::Revoke { .. } => Op::User,
        Stmt::BackupDatabase { .. } => Op::Backup,
        Stmt::RestoreDatabase { .. } => Op::Backup,
        Stmt::StartTransaction => Op::Transaction,
        Stmt::Commit => Op::Transaction,
        Stmt::Rollback => Op::Transaction,
        Stmt::CreateFunction { .. } => Op::CreateLens,
        Stmt::DropFunction { .. } => Op::DropLens,
        Stmt::CallFunction { .. } => Op::Transaction,
    }
}

/// How many latency buckets there are.
pub const BUCKET_COUNT: usize = 14;

/// The upper bounds of the latency buckets, in microseconds.
pub open spec fn bounds_us() -> Seq<u64> {
    seq![1, 5, 10, 25, 50, 100, 250, 500, 1000, 5000, 10000, 50000, 100000, 500000]
}

/// The upper bounds of the latency buckets, in microseconds.
pub fn latency_buckets_us() -> (r: Vec<u64>)
    ensures
        r@ == bounds_us(),
{
    let r: Vec<u64> = vec![
        1, 5, 10, 25, 50, 100, 250, 500, 1000, 5000, 10000, 50000, 100000, 500000,
    ];
    assert(r@ =~= bounds_us());
    r
}

/// One more; the count starts over past the largest number.
pub open spec fn one_more(n: u64) -> u64 {
    n.wrapping_add(1)
}

/// A cumulative histogram: each bucket counts the observations up to its bound.
#[derive(Debug)]
pub struct Histogram {
    pub counts: Vec<u64>,
    pub sum_us: u64,
    pub count: u64,
}

#[verifier::ext_equal]
pub struct HistogramV {
    pub counts: Seq<u64>,
    pub sum_us: u64,
    pub count: u64,
}

impl View for Histogram {
    type V = HistogramV;

    open spec fn view(&self) -> HistogramV {
        HistogramV { counts: self.counts@, sum_us: self.sum_us, count: self.count }
    }
}

impl HistogramV {
    pub open spec fn wf(self) -> bool {
        self.counts.len() == BUCKET_COUNT
    }

    /// The histogram with one more observation.
    pub open spec fn observed(self, ns: u64) -> HistogramV {
        HistogramV {
            counts: Seq::new(
                self.counts.len(),
                |i: int|
                    if ns / 1000 <= bounds_us()[i] {
                        one_more(self.counts[i])
                    } else {
                        self.counts[i]
                    },
            ),
            sum_us: self.sum_us.wrapping_add(ns / 1000),
            count: one_more(self.count),
        }
    }

    /// No bucket counts more than the next, nor more than all.
    pub open spec fn cumulative(self) -> bool {
        &&& forall|i: int, j: int|
            #![trigger self.counts[i], self.counts[j]]
            0 <= i <= j < self.counts.len() ==> self.counts[i] <= self.counts[j]
        &&& forall|i: int| 0 <= i < self.counts.len() ==> #[trigger] self.counts[i] <= self.count
    }

    pub open spec fn empty() -> HistogramV {
        HistogramV { counts: Seq::new(BUCKET_COUNT as nat, |i: int| 0u64), sum_us: 0, count: 0 }
    }
}

/// Observations keep the buckets cumulative, short of the largest count.
pub proof fn law_buckets_stay_cumulative(h: HistogramV, ns: u64)
    requires
        h.wf(),
        h.cumulative(),
        h.count < u64::MAX,
    ensures
        h.observed(ns).wf(),
        h.observed(ns).cumulative(),
        HistogramV::empty().cumulative(),
{
    let after = h.observed(ns);
    let b = bounds_us();
    assert forall|i: int, j: int|
        #![trigger after.counts[i], after.counts[j]]
        0 <= i <= j < after.counts.len() implies after.counts[i] <= after.counts[j] by {
        assert(h.counts[i] <= h.counts[j]);
        assert(h.counts[i] <= h.count && h.counts[j] <= h.count);
        assert(b[i] <= b[j]);
    }
    assert forall|i: int| 0 <= i < after.counts.len() implies #[trigger] after.counts[i]
        <= after.count by {
        assert(h.counts[i] <= h.count);
    }
}

impl Histogram {
    pub fn new() -> (r: Self)
        ensures
            r@ == HistogramV::empty(),
            r@.wf(),
    {
        let mut counts: Vec<u64> = Vec::new();
        let mut i: usize = 0;
        while i < BUCKET_COUNT
            invariant
                i <= BUCKET_COUNT,
                counts@ =~= Seq::new(i as nat, |k: int| 0u64),
            decreases BUCKET_COUNT - i,
        {
            counts.push(0);
            i = i + 1;
        }
        Histogram { counts, sum_us: 0, count: 0 }
    }

    /// Adds an observation in nanoseconds.
    pub fn observe_ns(&mut self, ns: u64)
        requires
            old(self)@.wf(),
        ensures
            final(self)@ == old(self)@.observed(ns),
            final(self)@.wf(),
    {
        let us: u64 = ns / 1000;
        self.sum_us = self.sum_us.wrapping_add(us);
        self.count = self.count.wrapping_add(1);
        let bounds = latency_buckets_us();
        let ghost before = self.counts@;
        let mut i: usize = 0;
        while i < bounds.len()
            invariant
                i <= BUCKET_COUNT,
                bounds@ == bounds_us(),
                bounds@.len() == BUCKET_COUNT,
                self.counts@.len() == BUCKET_COUNT,
                before.len() == BUCKET_COUNT,
                us == ns / 1000,
                self.sum_us == old(self).sum_us.wrapping_add(us),
                self.count == one_more(old(self).count),
                forall|k: int|
                    0 <= k < BUCKET_COUNT ==> #[trigger] self.counts@[k] == if k < i && us
                        <= bounds_us()[k] {
                        one_more(before[k])
                    } else {
                        before[k]
                    },
            decreases BUCKET_COUNT - i,
        {
            if us <= bounds[i] {
                let n: u64 = self.counts[i];
                self.counts.set(i, n.wrapping_add(1));
            }
            i = i + 1;
        }
        assert(self@ =~= old(self)@.observed(ns));
    }
}

/// The statistics of one kind of work.
#[derive(Debug)]
pub struct OpStats {
    pub count: u64,
    pub ns: u64,
    pub hist: Histogram,
}

#[verifier::ext_equal]
pub struct OpStatsV {
    pub count: u64,
    pub ns: u64,
    pub hist: HistogramV,
}

impl View for OpStats {
    type V = OpStatsV;

    open spec fn view(&self) -> OpStatsV {
        OpStatsV { count: self.count, ns: self.ns, hist: self.hist@ }
    }
}

impl OpStatsV {
    pub open spec fn empty() -> OpStatsV {
        OpStatsV { count: 0, ns: 0, hist: HistogramV::empty() }
    }

    pub open spec fn recorded(self, ns: u64) -> OpStatsV {
        OpStatsV {
            count: one_more(self.count),
            ns: self.ns.wrapping_add(ns),
            hist: self.hist.observed(ns),
        }
    }
}

impl OpStats {
    pub fn new() -> (r: Self)
        ensures
            r@ == OpStatsV::empty(),
    {
        OpStats { count: 0, ns: 0, hist: Histogram::new() }
    }

    /// Adds one execution and the time it took.
    pub fn record(&mut self, elapsed_ns: u64)
        requires
            old(self)@.hist.wf(),
        ensures
            final(self)@ == old(self)@.recorded(elapsed_ns),
            final(self)@.hist.wf(),
    {
        self.count = self.count.wrapping_add(1);
        self.ns = self.ns.wrapping_add(elapsed_ns);
        self.hist.observe_ns(elapsed_ns);
    }
}

/// What can be counted.
#[derive(Debug)]
pub enum MetricEvent {
    Op { op: Op, ns: u64 },
    DbOp { db: String, op: Op },
    Compaction,
    WalWrite { ns: u64 },
    SetActiveConnections { n: u64 },
    ConnectionAccepted,
    ConnectionRejected,
    AuthAttempt,
    AuthFailure,
    Error,
}

#[verifier::ext_equal]
pub struct MetricsV {
    pub ops: Seq<OpStatsV>,
    pub compactions: u64,
    pub wal: HistogramV,
    pub connections: u64,
    pub active: u64,
    pub rejected: u64,
    pub auth_attempts: u64,
    pub auth_failures: u64,
    pub errors: u64,
    /// Counts by database and kind of work.
    pub per_db: Map<Seq<char>, Seq<u64>>,
}

/// All counters.
#[derive(Debug)]
pub struct Metrics {
    pub ops: Vec<OpStats>,
    pub compactions: u64,
    pub wal_write_latency: Histogram,
    pub connections: u64,
    pub connections_active: u64,
    pub rejected_connections: u64,
    pub auth_attempts: u64,
    pub auth_failures: u64,
    pub errors: u64,
    pub per_db: NameMap<Vec<u64>>,
}

impl View for Metrics {
    type V = MetricsV;

    open spec fn view(&self) -> MetricsV {
        MetricsV {
            ops: self.ops@.map_values(|s: OpStats| s@),
            compactions: self.compactions,
            wal: self.wal_write_latency@,
            connections: self.connections,
            active: self.connections_active,
            rejected: self.rejected_connections,
            auth_attempts: self.auth_attempts,
            auth_failures: self.auth_failures,
            errors: self.errors,
            per_db: self.per_db@.map_values(|v: Vec<u64>| v@),
        }
    }
}

pub open spec fn no_counts() -> Seq<u64> {
    Seq::new(OP_COUNT as nat, |i: int| 0u64)
}

impl MetricsV {
    pub open spec fn wf(self) -> bool {
        &&& self.ops.len() == OP_COUNT
        &&& forall|i: int| 0 <= i < OP_COUNT ==> (#[trigger] self.ops[i]).hist.wf()
        &&& self.wal.wf()
        &&& forall|db: Seq<char>| #[trigger]
            self.per_db.contains_key(db) ==> self.per_db[db].len() == OP_COUNT
    }

    pub open spec fn empty() -> MetricsV {
        MetricsV {
            ops: Seq::new(OP_COUNT as nat, |i: int| OpStatsV::empty()),
            compactions: 0,
            wal: HistogramV::empty(),
            connections: 0,
            active: 0,
            rejected: 0,
            auth_attempts: 0,
            auth_failures: 0,
            errors: 0,
            per_db: Map::empty(),
        }
    }

    /// The counts of one database.
    pub open spec fn db_counts(self, db: Seq<char>) -> Seq<u64> {
        if self.per_db.contains_key(db) {
            self.per_db[db]
        } else {
            no_counts()
        }
    }

    /// The counters with one event counted.
    pub open spec fn counted(self, event: MetricEvent) -> MetricsV {
        match event {
            MetricEvent::Op { op, ns } => MetricsV {
                ops: self.ops.update(op.place(), self.ops[op.place()].recorded(ns)),
                ..self
            },
            MetricEvent::DbOp { db, op } => {
                let counts = self.db_counts(db@);
                MetricsV {
                    per_db: self.per_db.insert(
                        db@,
                        counts.update(op.place(), one_more(counts[op.place()])),
                    ),
                    ..self
                }
            },
            MetricEvent::Compaction => MetricsV {
                compactions: one_more(self.compactions),
                ..self
            },
            MetricEvent::WalWrite { ns } => MetricsV { wal: self.wal.observed(ns), ..self },
            MetricEvent::SetActiveConnections { n } => MetricsV { active: n, ..self },
            MetricEvent::ConnectionAccepted => MetricsV {
                connections: one_more(self.connections),
                ..self
            },
            MetricEvent::ConnectionRejected => MetricsV {
                rejected: one_more(self.rejected),
                ..self
            },
            MetricEvent::AuthAttempt => MetricsV {
                auth_attempts: one_more(self.auth_attempts),
                ..self
            },
            MetricEvent::AuthFailure => MetricsV {
                auth_failures: one_more(self.auth_failures),
                ..self
            },
            MetricEvent::Error => MetricsV { errors: one_more(self.errors), ..self },
        }
    }
}

impl Default for Metrics {
    fn default() -> (r: Self)
        ensures
            r@ == MetricsV::empty(),
            r@.wf(),
    {
        Metrics::new()
    }
}

impl Metrics {
    pub fn new() -> (r: Self)
        ensures
            r@ == MetricsV::empty(),
            r@.wf(),
    {
        let mut ops: Vec<OpStats> = Vec::new();
        let mut i: usize = 0;
        while i < OP_COUNT
            invariant
                i <= OP_COUNT,
                ops@.len() == i,
                forall|k: int| 0 <= k < i ==> (#[trigger] ops@[k])@ == OpStatsV::empty(),
            decreases OP_COUNT - i,
        {
            ops.push(OpStats::new());
            i = i + 1;
        }
        let r = Metrics {
            ops,
            compactions: 0,
            wal_write_latency: Histogram::new(),
            connections: 0,
            connections_active: 0,
            rejected_connections: 0,
            auth_attempts: 0,
            auth_failures: 0,
            errors: 0,
            per_db: NameMap::new(),
        };
        proof {
            assert(r@.ops =~= MetricsV::empty().ops);
            assert(r@.per_db =~= Map::empty());
        }
        r
    }

    /// Counts one execution of a kind of work.
    pub fn record_op(&mut self, op: Op, ns: u64)
        requires
            old(self)@.wf(),
        ensures
            final(self)@ == old(self)@.counted(MetricEvent::Op { op, ns }),
            final(self)@.wf(),
    {
        let i: usize = op.index();
        let ghost before = self@;
        assert(before.ops[i as int] == self.ops@[i as int]@);
        self.ops[i].record(ns);
        proof {
            assert(self@.ops =~= before.ops.update(i as int, before.ops[i as int].recorded(ns)));
            assert(self@ =~= before.counted(MetricEvent::Op { op, ns }));
        }
    }

    /// Counts one execution of a kind of work on a database.
    pub fn record_db_op(&mut self, db: &str, op: Op)
        requires
            old(self)@.wf(),
        ensures
            final(self)@ == (MetricsV {
                per_db: old(self)@.per_db.insert(
                    db@,
                    old(self)@.db_counts(db@).update(
                        op.place(),
                        one_more(old(self)@.db_counts(db@)[op.place()]),
                    ),
                ),
                ..old(self)@
            }),
            final(self)@.wf(),
    {
        let ghost before = self@;
        let i: usize = op.index();
        let mut counts: Vec<u64> = Vec::new();
        let mut k: usize = 0;
        let ghost old_counts = before.db_counts(db@);
        proof {
            if self.per_db@.contains_key(db@) {
                assert(before.per_db.contains_key(db@));
            } else {
                assert(!before.per_db.contains_key(db@));
            }
        }
        while k < OP_COUNT
            invariant
                k <= OP_COUNT,
                old_counts.len() == OP_COUNT,
                self@ == before,
                self@.wf(),
                old_counts == before.db_counts(db@),
                counts@ =~= old_counts.take(k as int),
            decreases OP_COUNT - k,
        {
            let n: u64 = match self.per_db.get(db) {
                Some(v) => {
                    assert(before.per_db.contains_key(db@));
                    v[k]
                },
                None => {
                    assert(!before.per_db.contains_key(db@));
                    0
                },
            };
            counts.push(n);
            k = k + 1;
        }
        assert(counts@ =~= old_counts);
        let n: u64 = counts[i];
        counts.set(i, n.wrapping_add(1));
        let ghost after = counts@;
        self.per_db.insert(db, counts);
        proof {
            assert(self@.per_db =~= before.per_db.insert(db@, after));
            assert(after =~= old_counts.update(i as int, one_more(old_counts[i as int])));
        }
    }

    /// Counts a compaction.
    pub fn record_compaction(&mut self)
        ensures
            final(self)@ == old(self)@.counted(MetricEvent::Compaction),
    {
        self.compactions = self.compactions.wrapping_add(1);
    }

    /// Counts a log write and the time it took.
    pub fn record_wal_write(&mut self, ns: u64)
        requires
            old(self)@.wf(),
        ensures
            final(self)@ == old(self)@.counted(MetricEvent::WalWrite { ns }),
            final(self)@.wf(),
    {
        self.wal_write_latency.observe_ns(ns);
    }

    pub fn record_auth_attempt(&mut self)
        ensures
            final(self)@ == old(self)@.counted(MetricEvent::AuthAttempt),
    {
        self.auth_attempts = self.auth_attempts.wrapping_add(1);
    }

    pub fn record_auth_failure(&mut self)
        ensures
            final(self)@ == old(self)@.counted(MetricEvent::AuthFailure),
    {
        self.auth_failures = self.auth_failures.wrapping_add(1);
    }

    pub fn record_error(&mut self)
        ensures
            final(self)@ == old(self)@.counted(MetricEvent::Error),
    {
        self.errors = self.errors.wrapping_add(1);
    }

    pub fn record_rejected_connection(&mut self)
        ensures
            final(self)@ == old(self)@.counted(MetricEvent::ConnectionRejected),
    {
        self.rejected_connections = self.rejected_connections.wrapping_add(1);
    }

    pub fn set_active_connections(&mut self, n: u64)
        ensures
            final(self)@ == old(self)@.counted(MetricEvent::SetActiveConnections { n }),
    {
        self.connections_active = n;
    }

    /// Counts an event.
    pub fn handle_metric_event(&mut self, event: MetricEvent)
        requires
            old(self)@.wf(),
        ensures
            final(self)@ == old(self)@.counted(event),
            final(self)@.wf(),
    {
        match event {
            MetricEvent::Op { op, ns } => self.record_op(op, ns),
            MetricEvent::DbOp { db, op } => self.record_db_op(db.as_str(), op),
            MetricEvent::Compaction => self.record_compaction(),
            MetricEvent::WalWrite { ns } => self.record_wal_write(ns),
            MetricEvent::SetActiveConnections { n } => self.set_active_connections(n),
            MetricEvent::ConnectionAccepted => {
                self.connections = self.connections.wrapping_add(1);
            },
            MetricEvent::ConnectionRejected => self.record_rejected_connection(),
            MetricEvent::AuthAttempt => self.record_auth_attempt(),
            MetricEvent::AuthFailure => self.record_auth_failure(),
            MetricEvent::Error => self.record_error(),
        }
    }
}

} // verus!
