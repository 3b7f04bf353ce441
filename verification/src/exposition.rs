//! The text form of the metrics, as Prometheus reads it.

use crate::metrics::{
    bounds_us, label_at, latency_buckets_us, op_label, Histogram, HistogramV, Metrics, MetricsV,
    BUCKET_COUNT, OP_COUNT,
};
use crate::names::{listed, lists_keys};
use crate::status::{thread_count, threads_in};
use crate::text::{decimal, push_decimal};
use vstd::prelude::*;

verus! {

/// What a process uses of its machine.
#[derive(Debug, Clone, Copy, PartialEq, Eq, Structural)]
pub struct ProcessUsage {
    pub rss_bytes: u64,
    pub vsz_bytes: u64,
    pub open_fds: u64,
    pub threads: u64,
}

/// `sysinfo` on this process: its resident and its virtual memory in bytes, where the system
/// tells. What the numbers are is not stated.
#[verifier::external_body]
fn process_memory() -> (r: Option<(u64, u64)>)
{
    let pid = sysinfo::get_current_pid().ok()?;
    let mut sys = sysinfo::System::new();
    let kind = sysinfo::ProcessRefreshKind::nothing().with_memory();
    sys.refresh_processes_specifics(sysinfo::ProcessesToUpdate::Some(&[pid]), true, kind);
    let process = sys.process(pid)?;
    Some((process.memory(), process.virtual_memory()))
}

impl ProcessUsage {
    /// Nothing known.
    pub fn zero() -> (r: Self)
        ensures
            r == (ProcessUsage { rss_bytes: 0, vsz_bytes: 0, open_fds: 0, threads: 0 }),
    {
        ProcessUsage { rss_bytes: 0, vsz_bytes: 0, open_fds: 0, threads: 0 }
    }

    /// The usage that memory sizes, a status text and a count of open files tell of. Nothing
    /// is known where the memory is not.
    pub fn told(memory: Option<(u64, u64)>, status: &str, open_fds: u64) -> (r: Self)
        ensures
            match memory {
                None => r == (ProcessUsage { rss_bytes: 0, vsz_bytes: 0, open_fds: 0, threads: 0 }),
                Some((rss_bytes, vsz_bytes)) => r == (ProcessUsage {
                    rss_bytes,
                    vsz_bytes,
                    open_fds,
                    threads: thread_count(status@),
                }),
            },
    {
        match memory {
            None => Self::zero(),
            Some((rss_bytes, vsz_bytes)) => ProcessUsage {
                rss_bytes,
                vsz_bytes,
                open_fds,
                threads: threads_in(status),
            },
        }
    }

    /// What this process uses now, with its threads and open files as its status text and a
    /// count of its open files tell of them. Nothing is known where its memory is not.
    pub fn sample(status: &str, open_fds: u64) -> (r: Self)
        ensures
            r == (ProcessUsage { rss_bytes: 0, vsz_bytes: 0, open_fds: 0, threads: 0 }) || (
            r.open_fds == open_fds && r.threads == thread_count(status@)),
    {
        Self::told(process_memory(), status, open_fds)
    }
}

/// The two comment lines that introduce a metric.
pub open spec fn head(name: Seq<char>, help: Seq<char>, kind: Seq<char>) -> Seq<char> {
    "# HELP "@ + name + " "@ + help + "\n# TYPE "@ + name + " "@ + kind + "\n"@
}

/// A metric without labels.
pub open spec fn single(name: Seq<char>, help: Seq<char>, kind: Seq<char>, n: u64) -> Seq<char> {
    head(name, help, kind) + name + " "@ + decimal(n as nat) + "\n"@
}

/// A value with the label of a kind of work.
pub open spec fn typed(name: Seq<char>, i: int, n: u64) -> Seq<char> {
    name + "{type=\""@ + label_at(i) + "\"} "@ + decimal(n as nat) + "\n"@
}

/// One text after the other.
pub open spec fn all_of(f: spec_fn(int) -> Seq<char>, k: int) -> Seq<char>
    decreases k,
{
    if k <= 0 {
        Seq::empty()
    } else {
        all_of(f, k - 1) + f(k - 1)
    }
}

/// How many statements of a kind there were.
pub open spec fn count_line(m: MetricsV) -> spec_fn(int) -> Seq<char> {
    |i: int| typed("tau_statements_total"@, i, m.ops[i].count)
}

pub open spec fn ns_line(m: MetricsV) -> spec_fn(int) -> Seq<char> {
    |i: int| typed("tau_statement_nanoseconds_total"@, i, m.ops[i].ns)
}

/// One bucket of a histogram. The labels that come before the bound are given.
pub open spec fn bucket_line(name: Seq<char>, labels: Seq<char>, h: HistogramV) -> spec_fn(
    int,
) -> Seq<char> {
    |j: int|
        name + "_bucket{"@ + labels + "le=\""@ + decimal(bounds_us()[j] as nat) + "\"} "@ + decimal(
            h.counts[j] as nat,
        ) + "\n"@
}

/// The bucket of a histogram without a bound.
pub open spec fn last_bucket(name: Seq<char>, labels: Seq<char>, n: u64) -> Seq<char> {
    name + "_bucket{"@ + labels + "le=\"+Inf\"} "@ + decimal(n as nat) + "\n"@
}

/// A value that a histogram ends with.
pub open spec fn total(name: Seq<char>, suffix: Seq<char>, tail: Seq<char>, n: u64) -> Seq<char> {
    name + suffix + tail + " "@ + decimal(n as nat) + "\n"@
}

/// A histogram: its buckets, the sum and the count.
pub open spec fn histogram_text(
    name: Seq<char>,
    labels: Seq<char>,
    tail: Seq<char>,
    h: HistogramV,
) -> Seq<char> {
    all_of(bucket_line(name, labels, h), BUCKET_COUNT as int) + last_bucket(name, labels, h.count)
        + total(name, "_sum"@, tail, h.sum_us) + total(name, "_count"@, tail, h.count)
}

/// The histogram of a kind of work.
pub open spec fn op_histogram(m: MetricsV) -> spec_fn(int) -> Seq<char> {
    |i: int|
        histogram_text(
            "tau_statement_duration_microseconds"@,
            "type=\""@ + label_at(i) + "\","@,
            "{type=\""@ + label_at(i) + "\"}"@,
            m.ops[i].hist,
        )
}

/// The count of a kind of work on a database, where there was any.
pub open spec fn db_line(db: Seq<char>, counts: Seq<u64>) -> spec_fn(int) -> Seq<char> {
    |i: int|
        if counts[i] == 0 {
            Seq::empty()
        } else {
            "tau_db_statements_total{db=\""@ + db + "\",type=\""@ + label_at(i) + "\"} "@ + decimal(
                counts[i] as nat,
            ) + "\n"@
        }
}

pub open spec fn db_lines(names: Seq<String>, per_db: Map<Seq<char>, Seq<u64>>) -> spec_fn(int) -> Seq<
    char,
> {
    |i: int| all_of(db_line(names[i]@, per_db[names[i]@]), OP_COUNT as int)
}

/// The statement metrics.
pub open spec fn statements_text(m: MetricsV) -> Seq<char> {
    head(
        "tau_statements_total"@,
        "Total statements processed by the executor"@,
        "counter"@,
    ) + all_of(count_line(m), OP_COUNT as int) + head(
        "tau_statement_nanoseconds_total"@,
        "Cumulative executor time per statement type, in nanoseconds"@,
        "counter"@,
    ) + all_of(ns_line(m), OP_COUNT as int) + head(
        "tau_statement_duration_microseconds"@,
        "Histogram of executor time per statement type, in microseconds"@,
        "histogram"@,
    ) + all_of(op_histogram(m), OP_COUNT as int)
}

/// The metrics of storage.
pub open spec fn storage_text(m: MetricsV, names: Seq<String>) -> Seq<char> {
    head(
        "tau_wal_write_duration_microseconds"@,
        "Time spent writing one entry to the WAL file (includes fsync when enabled)"@,
        "histogram"@,
    ) + histogram_text("tau_wal_write_duration_microseconds"@, ""@, ""@, m.wal) + head(
        "tau_db_statements_total"@,
        "Statements processed per database and type"@,
        "counter"@,
    ) + all_of(db_lines(names, m.per_db), names.len() as int) + single(
        "tau_compactions_total"@,
        "Times the sweep-line compactor merged a lens layer stack"@,
        "counter"@,
        m.compactions,
    )
}

/// The metrics of the server.
pub open spec fn server_text(m: MetricsV) -> Seq<char> {
    single(
        "tau_connections_total"@,
        "Total TCP connections accepted by the server"@,
        "counter"@,
        m.connections,
    ) + single(
        "tau_connections_active"@,
        "Currently open TCP connections"@,
        "gauge"@,
        m.active,
    ) + single(
        "tau_rejected_connections_total"@,
        "Connections refused at the accept boundary (server at capacity)"@,
        "counter"@,
        m.rejected,
    ) + single(
        "tau_auth_attempts_total"@,
        "Total AUTH attempts received (successful + failed)"@,
        "counter"@,
        m.auth_attempts,
    ) + single(
        "tau_auth_failures_total"@,
        "AUTH attempts that were rejected (wrong credentials or missing AUTH)"@,
        "counter"@,
        m.auth_failures,
    ) + single(
        "tau_errors_total"@,
        "Total ERR responses sent to clients"@,
        "counter"@,
        m.errors,
    )
}

/// The metrics of the process.
pub open spec fn process_text(u: ProcessUsage, uptime_secs: u64) -> Seq<char> {
    single(
        "tau_process_resident_bytes"@,
        "Resident set size of the tau process, in bytes (0 if unsupported)"@,
        "gauge"@,
        u.rss_bytes,
    ) + single(
        "tau_process_virtual_bytes"@,
        "Virtual memory size of the tau process, in bytes (0 if unsupported)"@,
        "gauge"@,
        u.vsz_bytes,
    ) + single(
        "tau_process_open_fds"@,
        "Open file descriptors held by the tau process (0 if unsupported)"@,
        "gauge"@,
        u.open_fds,
    ) + single(
        "tau_process_threads"@,
        "OS threads in the tau process (0 if unsupported)"@,
        "gauge"@,
        u.threads,
    ) + single(
        "tau_process_uptime_seconds"@,
        "Wall-clock seconds since the metrics module was initialised"@,
        "gauge"@,
        uptime_secs,
    )
}

/// All metrics, the databases in the given order.
pub open spec fn exposition(
    m: MetricsV,
    names: Seq<String>,
    u: ProcessUsage,
    uptime_secs: u64,
) -> Seq<char> {
    statements_text(m) + storage_text(m, names) + server_text(m) + process_text(u, uptime_secs)
        + "# EOF\n"@
}

fn push_head(out: &mut String, name: &str, help: &str, kind: &str)
    ensures
        final(out)@ == old(out)@ + head(name@, help@, kind@),
{
    out.append("# HELP ");
    out.append(name);
    out.append(" ");
    out.append(help);
    out.append("\n# TYPE ");
    out.append(name);
    out.append(" ");
    out.append(kind);
    out.append("\n");
    assert(out@ =~= old(out)@ + head(name@, help@, kind@));
}

fn push_single(out: &mut String, name: &str, help: &str, kind: &str, n: u64)
    ensures
        final(out)@ == old(out)@ + single(name@, help@, kind@, n),
{
    push_head(out, name, help, kind);
    out.append(name);
    out.append(" ");
    push_decimal(out, n);
    out.append("\n");
    assert(out@ =~= old(out)@ + single(name@, help@, kind@, n));
}

fn push_typed(out: &mut String, name: &str, i: usize, n: u64)
    ensures
        final(out)@ == old(out)@ + typed(name@, i as int, n),
{
    out.append(name);
    out.append("{type=\"");
    out.append(op_label(i));
    out.append("\"} ");
    push_decimal(out, n);
    out.append("\n");
    assert(out@ =~= old(out)@ + typed(name@, i as int, n));
}

fn push_buckets(out: &mut String, name: &str, labels: &str, h: &Histogram)
    requires
        h@.wf(),
    ensures
        final(out)@ == old(out)@ + all_of(
            bucket_line(name@, labels@, h@),
            BUCKET_COUNT as int,
        ),
{
    let ghost before = out@;
    let ghost f = bucket_line(name@, labels@, h@);
    let bounds = latency_buckets_us();
    let mut j: usize = 0;
    assert(before + all_of(f, 0) =~= before);
    while j < BUCKET_COUNT
        invariant
            j <= BUCKET_COUNT,
            bounds@ == bounds_us(),
            bounds@.len() == BUCKET_COUNT,
            h@.wf(),
            f == bucket_line(name@, labels@, h@),
            out@ == before + all_of(f, j as int),
        decreases BUCKET_COUNT - j,
    {
        let ghost sofar = out@;
        out.append(name);
        out.append("_bucket{");
        out.append(labels);
        out.append("le=\"");
        push_decimal(out, bounds[j]);
        out.append("\"} ");
        push_decimal(out, h.counts[j]);
        out.append("\n");
        proof {
            assert(out@ =~= sofar + f(j as int));
            assert(before + all_of(f, j + 1) =~= (before + all_of(f, j as int)) + f(j as int));
        }
        j = j + 1;
    }
}

fn push_histogram(out: &mut String, name: &str, labels: &str, tail: &str, h: &Histogram)
    requires
        h@.wf(),
    ensures
        final(out)@ == old(out)@ + histogram_text(name@, labels@, tail@, h@),
{
    push_buckets(out, name, labels, h);
    push_last_bucket(out, name, labels, h.count);
    push_total(out, name, "_sum", tail, h.sum_us);
    push_total(out, name, "_count", tail, h.count);
    assert(out@ =~= old(out)@ + histogram_text(name@, labels@, tail@, h@));
}

fn push_last_bucket(out: &mut String, name: &str, labels: &str, n: u64)
    ensures
        final(out)@ == old(out)@ + last_bucket(name@, labels@, n),
{
    out.append(name);
    out.append("_bucket{");
    out.append(labels);
    out.append("le=\"+Inf\"} ");
    push_decimal(out, n);
    out.append("\n");
    assert(out@ =~= old(out)@ + last_bucket(name@, labels@, n));
}

fn push_total(out: &mut String, name: &str, suffix: &str, tail: &str, n: u64)
    ensures
        final(out)@ == old(out)@ + total(name@, suffix@, tail@, n),
{
    out.append(name);
    out.append(suffix);
    out.append(tail);
    out.append(" ");
    push_decimal(out, n);
    out.append("\n");
    assert(out@ =~= old(out)@ + total(name@, suffix@, tail@, n));
}

fn type_labels(i: usize) -> (r: (String, String))
    ensures
        r.0@ == "type=\""@ + label_at(i as int) + "\","@,
        r.1@ == "{type=\""@ + label_at(i as int) + "\"}"@,
{
    let mut a = String::from_str("type=\"");
    a.append(op_label(i));
    a.append("\",");
    let mut b = String::from_str("{type=\"");
    b.append(op_label(i));
    b.append("\"}");
    (a, b)
}

impl Metrics {
    fn push_statements(&self, out: &mut String)
        requires
            self@.wf(),
        ensures
            final(out)@ == old(out)@ + statements_text(self@),
    {
        let ghost m = self@;
        let ghost start = out@;
        push_head(
            out,
            "tau_statements_total",
            "Total statements processed by the executor",
            "counter",
        );
        let ghost p1 = out@;
        let mut i: usize = 0;
        assert(p1 + all_of(count_line(m), 0) =~= p1);
        while i < OP_COUNT
            invariant
                i <= OP_COUNT,
                m == self@,
                self@.wf(),
                out@ == p1 + all_of(count_line(m), i as int),
            decreases OP_COUNT - i,
        {
            assert(m.ops[i as int] == self.ops@[i as int]@);
            push_typed(out, "tau_statements_total", i, self.ops[i].count);
            proof {
                let f = count_line(m);
                assert(p1 + all_of(f, i + 1) =~= (p1 + all_of(f, i as int)) + f(i as int));
            }
            i = i + 1;
        }
        push_head(
            out,
            "tau_statement_nanoseconds_total",
            "Cumulative executor time per statement type, in nanoseconds",
            "counter",
        );
        let ghost p2 = out@;
        i = 0;
        assert(p2 + all_of(ns_line(m), 0) =~= p2);
        while i < OP_COUNT
            invariant
                i <= OP_COUNT,
                m == self@,
                self@.wf(),
                out@ == p2 + all_of(ns_line(m), i as int),
            decreases OP_COUNT - i,
        {
            assert(m.ops[i as int] == self.ops@[i as int]@);
            push_typed(out, "tau_statement_nanoseconds_total", i, self.ops[i].ns);
            proof {
                let f = ns_line(m);
                assert(p2 + all_of(f, i + 1) =~= (p2 + all_of(f, i as int)) + f(i as int));
            }
            i = i + 1;
        }
        push_head(
            out,
            "tau_statement_duration_microseconds",
            "Histogram of executor time per statement type, in microseconds",
            "histogram",
        );
        let ghost p3 = out@;
        i = 0;
        assert(p3 + all_of(op_histogram(m), 0) =~= p3);
        while i < OP_COUNT
            invariant
                i <= OP_COUNT,
                m == self@,
                self@.wf(),
                out@ == p3 + all_of(op_histogram(m), i as int),
            decreases OP_COUNT - i,
        {
            let (labels, tail): (String, String) = type_labels(i);
            proof {
                assert(m.ops[i as int] == self.ops@[i as int]@);
                assert(m.ops[i as int].hist.wf());
            }
            push_histogram(
                out,
                "tau_statement_duration_microseconds",
                labels.as_str(),
                tail.as_str(),
                &self.ops[i].hist,
            );
            proof {
                let f = op_histogram(m);
                assert(p3 + all_of(f, i + 1) =~= (p3 + all_of(f, i as int)) + f(i as int));
            }
            i = i + 1;
        }
        assert(out@ =~= start + statements_text(m));
    }

    fn push_storage(&self, out: &mut String, names: &Vec<String>)
        requires
            self@.wf(),
            lists_keys(names@, self@.per_db),
        ensures
            final(out)@ == old(out)@ + storage_text(self@, names@),
    {
        let ghost m = self@;
        let ghost start = out@;
        push_head(
            out,
            "tau_wal_write_duration_microseconds",
            "Time spent writing one entry to the WAL file (includes fsync when enabled)",
            "histogram",
        );
        push_histogram(
            out,
            "tau_wal_write_duration_microseconds",
            "",
            "",
            &self.wal_write_latency,
        );
        push_head(
            out,
            "tau_db_statements_total",
            "Statements processed per database and type",
            "counter",
        );
        let ghost p = out@;
        let ghost g = db_lines(names@, m.per_db);
        let mut k: usize = 0;
        assert(p + all_of(g, 0) =~= p);
        while k < names.len()
            invariant
                k <= names@.len(),
                m == self@,
                self@.wf(),
                lists_keys(names@, m.per_db),
                g == db_lines(names@, m.per_db),
                out@ == p + all_of(g, k as int),
            decreases names@.len() - k,
        {
            let name = names[k].as_str();
            proof {
                assert(listed(names@, name@));
                assert(m.per_db.contains_key(name@));
            }
            let ghost sofar = out@;
            if let Some(counts) = self.per_db.get(name) {
                push_db_lines(out, name, counts);
            }
            proof {
                assert(p + all_of(g, k + 1) =~= (p + all_of(g, k as int)) + g(k as int));
            }
            k = k + 1;
        }
        push_single(
            out,
            "tau_compactions_total",
            "Times the sweep-line compactor merged a lens layer stack",
            "counter",
            self.compactions,
        );
        assert(out@ =~= start + storage_text(m, names@));
    }

    fn push_server(&self, out: &mut String)
        ensures
            final(out)@ == old(out)@ + server_text(self@),
    {
        push_single(
            out,
            "tau_connections_total",
            "Total TCP connections accepted by the server",
            "counter",
            self.connections,
        );
        push_single(
            out,
            "tau_connections_active",
            "Currently open TCP connections",
            "gauge",
            self.connections_active,
        );
        push_single(
            out,
            "tau_rejected_connections_total",
            "Connections refused at the accept boundary (server at capacity)",
            "counter",
            self.rejected_connections,
        );
        push_single(
            out,
            "tau_auth_attempts_total",
            "Total AUTH attempts received (successful + failed)",
            "counter",
            self.auth_attempts,
        );
        push_single(
            out,
            "tau_auth_failures_total",
            "AUTH attempts that were rejected (wrong credentials or missing AUTH)",
            "counter",
            self.auth_failures,
        );
        push_single(
            out,
            "tau_errors_total",
            "Total ERR responses sent to clients",
            "counter",
            self.errors,
        );
        assert(out@ =~= old(out)@ + server_text(self@));
    }

    /// All metrics as text, the databases in name order.
    pub fn prometheus_text(&self, usage: ProcessUsage, uptime_secs: u64) -> (r: String)
        requires
            self@.wf(),
        ensures
            exists|names: Seq<String>|
                lists_keys(names, self@.per_db) && r@ == #[trigger] exposition(
                    self@,
                    names,
                    usage,
                    uptime_secs,
                ),
    {
        let names = self.per_db.names();
        proof {
            assert forall|k: Seq<char>| #[trigger] self@.per_db.contains_key(k) <==> listed(
                names@,
                k,
            ) by {
                assert(self.per_db@.contains_key(k) <==> listed(names@, k));
            }
        }
        let mut out = String::new();
        self.push_statements(&mut out);
        self.push_storage(&mut out, &names);
        self.push_server(&mut out);
        push_process(&mut out, usage, uptime_secs);
        out.append("# EOF\n");
        assert(out@ =~= exposition(self@, names@, usage, uptime_secs));
        out
    }
}

fn push_db_lines(out: &mut String, db: &str, counts: &Vec<u64>)
    requires
        counts@.len() == OP_COUNT,
    ensures
        final(out)@ == old(out)@ + all_of(db_line(db@, counts@), OP_COUNT as int),
{
    let ghost before = out@;
    let ghost f = db_line(db@, counts@);
    let mut i: usize = 0;
    assert(before + all_of(f, 0) =~= before);
    while i < OP_COUNT
        invariant
            i <= OP_COUNT,
            counts@.len() == OP_COUNT,
            f == db_line(db@, counts@),
            out@ == before + all_of(f, i as int),
        decreases OP_COUNT - i,
    {
        let ghost sofar = out@;
        if counts[i] != 0 {
            out.append("tau_db_statements_total{db=\"");
            out.append(db);
            out.append("\",type=\"");
            out.append(op_label(i));
            out.append("\"} ");
            push_decimal(out, counts[i]);
            out.append("\n");
        }
        proof {
            assert(out@ =~= sofar + f(i as int));
            assert(before + all_of(f, i + 1) =~= (before + all_of(f, i as int)) + f(i as int));
        }
        i = i + 1;
    }
}

fn push_process(out: &mut String, usage: ProcessUsage, uptime_secs: u64)
    ensures
        final(out)@ == old(out)@ + process_text(usage, uptime_secs),
{
    push_single(
        out,
        "tau_process_resident_bytes",
        "Resident set size of the tau process, in bytes (0 if unsupported)",
        "gauge",
        usage.rss_bytes,
    );
    push_single(
        out,
        "tau_process_virtual_bytes",
        "Virtual memory size of the tau process, in bytes (0 if unsupported)",
        "gauge",
        usage.vsz_bytes,
    );
    push_single(
        out,
        "tau_process_open_fds",
        "Open file descriptors held by the tau process (0 if unsupported)",
        "gauge",
        usage.open_fds,
    );
    push_single(
        out,
        "tau_process_threads",
        "OS threads in the tau process (0 if unsupported)",
        "gauge",
        usage.threads,
    );
    push_single(
        out,
        "tau_process_uptime_seconds",
        "Wall-clock seconds since the metrics module was initialised",
        "gauge",
        uptime_secs,
    );
    assert(out@ =~= old(out)@ + process_text(usage, uptime_secs));
}

} // verus!
