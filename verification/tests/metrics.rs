//! Counters, histograms and their text form.

use libtau::exposition::ProcessUsage;
use libtau::metrics::{
    latency_buckets_us, op_label, Histogram, MetricEvent, Metrics, Op, OP_COUNT,
};

/// A small linear congruential generator, so that the cases are the same in every run.
struct Draw(u64);

impl Draw {
    fn next(&mut self) -> u64 {
        self.0 = self
            .0
            .wrapping_mul(6364136223846793005)
            .wrapping_add(1442695040888963407);
        self.0 >> 16
    }

    fn within(&mut self, lo: i64, hi: i64) -> i64 {
        lo + (self.next() % ((hi - lo) as u64 + 1)) as i64
    }
}

#[test]
fn counters_start_at_zero() {
    let m = Metrics::new();
    for op in &m.ops {
        assert_eq!(op.count, 0);
        assert_eq!(op.ns, 0);
    }
    assert_eq!(m.connections, 0);
    assert_eq!(m.connections_active, 0);
    assert_eq!(m.rejected_connections, 0);
    assert_eq!(m.auth_attempts, 0);
    assert_eq!(m.auth_failures, 0);
    assert_eq!(m.errors, 0);
    assert_eq!(m.compactions, 0);
}

#[test]
fn record_methods_increment_count_and_ns() {
    for seed in 1..=30 {
        let mut tc = Draw(seed);
        let samples: Vec<u64> = (0..tc.within(0, 16))
            .map(|_| tc.within(0, 10_000_000) as u64)
            .collect();
        let mut m = Metrics::new();
        for &ns in &samples {
            m.record_op(Op::Append, ns);
        }
        let append = &m.ops[Op::Append.index()];
        assert_eq!(append.count, samples.len() as u64);
        assert_eq!(append.ns, samples.iter().sum::<u64>());
        assert_eq!(append.hist.count, samples.len() as u64);
    }
}

#[test]
fn histogram_observations_fall_in_the_right_bucket() {
    let bounds = latency_buckets_us();
    for seed in 1..=200 {
        let mut tc = Draw(seed);
        let mut h = Histogram::new();
        let ns = tc.within(0, 2_000_000_000) as u64;
        h.observe_ns(ns);
        let us = ns / 1_000;
        for (i, &bound) in bounds.iter().enumerate() {
            let expected = if us <= bound { 1 } else { 0 };
            assert_eq!(h.counts[i], expected, "bucket le={bound}");
        }
        assert_eq!(h.count, 1);
        assert_eq!(h.sum_us, us);
    }
}

#[test]
fn histogram_buckets_are_monotone_non_decreasing() {
    for seed in 1..=30 {
        let mut tc = Draw(seed);
        let mut h = Histogram::new();
        for _ in 0..tc.within(0, 64) {
            h.observe_ns(tc.within(0, 1_000_000) as u64);
        }
        for w in h.counts.windows(2) {
            assert!(w[0] <= w[1], "bucket counts must be cumulative");
        }
        for c in &h.counts {
            assert!(*c <= h.count);
        }
    }
}

#[test]
fn counters_accumulate_linearly() {
    for seed in 1..=20 {
        let mut tc = Draw(seed);
        let auth_attempts = tc.within(0, 50) as u64;
        let auth_failures = tc.within(0, 50) as u64;
        let errors = tc.within(0, 50) as u64;
        let rejected = tc.within(0, 50) as u64;
        let mut m = Metrics::new();
        for _ in 0..auth_attempts {
            m.record_auth_attempt();
        }
        for _ in 0..auth_failures {
            m.record_auth_failure();
        }
        for _ in 0..errors {
            m.record_error();
        }
        for _ in 0..rejected {
            m.record_rejected_connection();
        }
        assert_eq!(m.auth_attempts, auth_attempts);
        assert_eq!(m.auth_failures, auth_failures);
        assert_eq!(m.errors, errors);
        assert_eq!(m.rejected_connections, rejected);
    }
}

#[test]
fn prometheus_text_exposes_every_documented_family() {
    let mut m = Metrics::new();
    m.record_op(Op::Append, 100);
    m.record_op(Op::At, 200);
    m.record_op(Op::Range, 300);
    m.record_op(Op::Reduce, 400);
    m.record_op(Op::History, 150);
    m.record_op(Op::CreateLens, 50);
    let text = m.prometheus_text(ProcessUsage::zero(), 0);
    for line in [
        "# TYPE tau_statements_total counter",
        "# TYPE tau_statement_nanoseconds_total counter",
        "# TYPE tau_statement_duration_microseconds histogram",
        "# TYPE tau_connections_total counter",
        "# TYPE tau_rejected_connections_total counter",
        "# TYPE tau_auth_attempts_total counter",
        "# TYPE tau_auth_failures_total counter",
        "# TYPE tau_errors_total counter",
        "# TYPE tau_process_resident_bytes gauge",
    ] {
        assert!(text.contains(line), "missing: {line}");
    }
    assert!(text.contains("# EOF"));
}

#[test]
fn prometheus_text_count_matches_counters() {
    for seed in 1..=20 {
        let mut tc = Draw(seed);
        let n_append = tc.within(0, 20);
        let n_at = tc.within(0, 20);
        let mut m = Metrics::new();
        for _ in 0..n_append {
            m.record_op(Op::Append, 100);
        }
        for _ in 0..n_at {
            m.record_op(Op::At, 50);
        }
        let text = m.prometheus_text(ProcessUsage::zero(), 0);
        assert!(text.contains(&format!(
            "tau_statements_total{{type=\"append\"}} {n_append}"
        )));
        assert!(text.contains(&format!("tau_statements_total{{type=\"at\"}} {n_at}")));
    }
}

#[test]
fn record_compaction_increments() {
    let mut m = Metrics::new();
    m.record_compaction();
    m.record_compaction();
    assert_eq!(m.compactions, 2);
}

#[test]
fn wal_write_latency_records() {
    let mut m = Metrics::new();
    m.record_wal_write(5_000);
    let text = m.prometheus_text(ProcessUsage::zero(), 0);
    assert!(text.contains("tau_wal_write_duration_microseconds"));
}

#[test]
fn per_db_counts_accumulate() {
    let mut m = Metrics::new();
    m.record_db_op("main", Op::Append);
    m.record_db_op("main", Op::Append);
    m.record_db_op("other", Op::At);
    assert_eq!(m.per_db.get("main").unwrap()[Op::Append.index()], 2);
    assert_eq!(m.per_db.get("other").unwrap()[Op::At.index()], 1);
}

#[test]
fn set_active_connections_stores_value() {
    let mut m = Metrics::new();
    m.set_active_connections(42);
    assert_eq!(m.connections_active, 42);
}

#[test]
fn all_op_labels_appear_in_output() {
    let m = Metrics::new();
    let text = m.prometheus_text(ProcessUsage::zero(), 0);
    for i in 0..OP_COUNT {
        let label = op_label(i);
        assert!(
            text.contains(&format!("type=\"{label}\"")),
            "missing op: {label}"
        );
    }
}

#[test]
fn events_are_counted() {
    let mut m = Metrics::new();
    m.handle_metric_event(MetricEvent::Op { op: Op::At, ns: 7 });
    m.handle_metric_event(MetricEvent::DbOp { db: "main".into(), op: Op::At });
    m.handle_metric_event(MetricEvent::Compaction);
    m.handle_metric_event(MetricEvent::WalWrite { ns: 3_000 });
    m.handle_metric_event(MetricEvent::SetActiveConnections { n: 5 });
    m.handle_metric_event(MetricEvent::ConnectionAccepted);
    m.handle_metric_event(MetricEvent::ConnectionRejected);
    m.handle_metric_event(MetricEvent::AuthAttempt);
    m.handle_metric_event(MetricEvent::AuthFailure);
    m.handle_metric_event(MetricEvent::Error);
    assert_eq!(m.ops[Op::At.index()].ns, 7);
    assert_eq!(m.per_db.get("main").unwrap()[Op::At.index()], 1);
    assert_eq!(m.compactions, 1);
    assert_eq!(m.wal_write_latency.sum_us, 3);
    assert_eq!(m.connections_active, 5);
    assert_eq!(m.connections, 1);
    assert_eq!(m.rejected_connections, 1);
    assert_eq!(m.auth_attempts, 1);
    assert_eq!(m.auth_failures, 1);
    assert_eq!(m.errors, 1);
}

#[test]
fn default_is_same_as_new() {
    let m: Metrics = Default::default();
    assert_eq!(m.ops[Op::Append.index()].count, 0);
}

#[test]
fn status_text_counts_threads() {
    let status = "Name:\ttau\nVmRSS:\t  1024 kB\nThreads:\t7\nSigQ:\t1/2\nThreads:\t9\n";
    let told = ProcessUsage::told(Some((4096, 8192)), status, 3);
    assert_eq!(
        told,
        ProcessUsage {
            rss_bytes: 4096,
            vsz_bytes: 8192,
            open_fds: 3,
            threads: 7
        }
    );
    assert_eq!(ProcessUsage::told(None, status, 3), ProcessUsage::zero());
}

#[test]
fn status_text_without_a_count_gives_no_threads() {
    for status in ["", "Name: tau", "Threads:", "Threads: many\n", "Threads:5", " Threads: 5"] {
        assert_eq!(ProcessUsage::told(Some((1, 1)), status, 0).threads, 0);
    }
    assert_eq!(
        ProcessUsage::told(Some((1, 1)), "Threads: 12 more\r\n", 0).threads,
        12
    );
}

#[test]
fn sample_takes_threads_and_open_files_as_told() {
    let usage = ProcessUsage::sample("Threads:\t4\n", 11);
    assert!(usage.rss_bytes > 0);
    assert_eq!((usage.threads, usage.open_fds), (4, 11));
}
