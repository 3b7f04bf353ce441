//! Errors, statement kinds and the process sample.

use libtau::ast::{AggFunc, Stmt};
use libtau::error::ExecError;
use libtau::exposition::ProcessUsage;

#[test]
fn wal_error_variant_formats_in_tcp_output() {
    let e = ExecError::Io("disk full".into());
    assert!(matches!(e, ExecError::Io(_)));
}

#[test]
fn reduce_is_read_only() {
    assert!(
        Stmt::Reduce {
            name: "x".into(),
            start: 0,
            end: 10,
            func: AggFunc::Min
        }
        .is_read_only()
    );
}

#[test]
fn process_usage_reports_nonzero_on_linux() {
    let u = ProcessUsage::sample("Name:\ttau\nThreads:\t2\n", 3);
    assert!(
        u.rss_bytes > 0,
        "RSS should be observable on Linux, got {u:?}"
    );
    assert!(u.threads > 0, "thread count should be observable on Linux");
}
