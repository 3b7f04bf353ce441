//! Statements executed from text, end to end.

use libtau::ast::Stmt;
use libtau::database::Record;
use libtau::error::ExecError;
use libtau::floats::FloatTask;
use libtau::functions::HookReturn;
use libtau::inputs::Inputs;
use libtau::kernel::{Action, Kernel};
use libtau::names::NameMap;
use libtau::output::Output;
use libtau::parser::{parse as parse_text, ParseError};
use libtau::perm::Perm;
use libtau::service::StorageBackend;
use libtau::value::{Type, Value};
use std::cell::RefCell;
use std::collections::HashMap;
use std::rc::Rc;
use std::sync::Arc;

/// A small linear congruential generator, so that the cases are the same in every run.
struct Draw(u64);

impl Draw {
    fn next(&mut self) -> u64 {
        self.0 = self
            .0
            .wrapping_mul(6364136223846793005)
            .wrapping_add(1442695040888963407);
        self.0 >> 16
    }

    fn within(&mut self, lo: i64, hi: i64) -> i64 {
        lo + (self.next() % ((hi - lo) as u64 + 1)) as i64
    }
}

/// What stands for the disk: texts to copy from, and backups.
#[derive(Clone, Default)]
struct Disk {
    files: Rc<RefCell<HashMap<String, String>>>,
    backups: Rc<RefCell<HashMap<String, Arc<Vec<Record<Value>>>>>>,
}

struct Session {
    kernel: Kernel,
    disk: Disk,
}

fn do_task(task: &FloatTask) -> u64 {
    let f = f64::from_bits;
    match task {
        FloatTask::Parse(s) => s.parse::<f64>().unwrap().to_bits(),
        FloatTask::FromInt(i) => (*i as f64).to_bits(),
        FloatTask::Sum(a, b) => (f(*a) + f(*b)).to_bits(),
        FloatTask::Difference(a, b) => (f(*a) - f(*b)).to_bits(),
        FloatTask::Product(a, b) => (f(*a) * f(*b)).to_bits(),
        FloatTask::Quotient(a, b) => (f(*a) / f(*b)).to_bits(),
        FloatTask::Remainder(a, b) => (f(*a) % f(*b)).to_bits(),
    }
}

impl Session {
    fn new() -> Self {
        Session::on(&Disk::default())
    }

    fn on(disk: &Disk) -> Self {
        Session {
            kernel: Kernel::new(),
            disk: disk.clone(),
        }
    }

    fn active(&self) -> Option<String> {
        self.kernel.active()
    }

    fn inputs(&self) -> Inputs {
        let mut inputs = Inputs::new(self.kernel.clock.now_ms());
        for (path, text) in self.disk.files.borrow().iter() {
            inputs.files.insert(path, Ok(text.clone()));
        }
        for (path, log) in self.disk.backups.borrow().iter() {
            inputs.backups.insert(path, Ok(log.clone()));
        }
        inputs
    }

    fn drive(
        &mut self,
        mut step: impl FnMut(&mut Kernel, &Inputs) -> Result<Action, ExecError>,
    ) -> Result<Output, ExecError> {
        let mut inputs = self.inputs();
        loop {
            match step(&mut self.kernel, &inputs) {
                Err(ExecError::Pending(task)) => {
                    let bits = do_task(&task);
                    inputs.floats.record(task, bits);
                }
                Err(ExecError::PendingFile(path)) => {
                    inputs.files.insert(&path, Err("no such file".into()));
                    inputs.backups.insert(&path, Err("no such file".into()));
                }
                Err(ExecError::PendingCode(source)) => inputs.compiled.insert(&source, Ok(())),
                Err(e) => return Err(e),
                Ok(Action::Done(out)) => {
                    for (path, log) in std::mem::take(&mut self.kernel.db.outbox) {
                        self.disk.backups.borrow_mut().insert(path, Arc::new(log));
                    }
                    return Ok(out);
                }
                Ok(_) => return Ok(Output::Empty),
            }
        }
    }

    fn exec(&mut self, stmt: &Stmt) -> Result<Output, ExecError> {
        let stmt = Arc::new(stmt.clone());
        self.drive(|k, inputs| k.execute(&stmt, inputs))
    }

    fn exec_read(&mut self, stmt: &Stmt) -> Result<Output, ExecError> {
        let stmt = Arc::new(stmt.clone());
        self.drive(|k, inputs| k.exec_read(&stmt, inputs))
    }

    fn exec_as(&mut self, stmt: &Stmt, caller: &str) -> Result<Output, ExecError> {
        let stmt = Arc::new(stmt.clone());
        let hooks: Vec<HookReturn> = Vec::new();
        self.drive(|k, inputs| k.exec_as(&stmt, caller, &hooks, inputs))
    }

    fn exec_read_as(&mut self, stmt: &Stmt, caller: &str) -> Result<Output, ExecError> {
        let stmt = Arc::new(stmt.clone());
        let hooks: Vec<HookReturn> = Vec::new();
        self.drive(|k, inputs| k.exec_read_as(&stmt, caller, &hooks, inputs))
    }
}

fn parse(q: &str) -> Result<(String, Stmt), ParseError> {
    parse_text(q)
}

/// Parse + run. Panics on parse failure; returns `Result` on execution.
fn run(e: &mut Session, q: &str) -> Result<Output, ExecError> {
    let (rest, stmt) = parse(q).expect("parse failed");
    assert!(rest.is_empty(), "unconsumed: {rest:?}");
    e.exec(&stmt)
}

fn setup() -> Session {
    let mut e = Session::new();
    run(&mut e, "CREATE DATABASE main").unwrap();
    e
}

fn setup_on(disk: &Disk) -> Session {
    let mut e = Session::on(disk);
    run(&mut e, "CREATE DATABASE main").unwrap();
    e
}

fn add_user(e: &mut Session, name: &str, db: &str, perms: Perm) {
    let mut grants = NameMap::new();
    grants.insert(db, perms);
    e.kernel.auth.create_user(name, "p", grants).unwrap();
}

fn install_admin(e: &mut Session) {
    add_user(e, "admin", "*", Perm::all());
}

fn install_reader(e: &mut Session, db: &str) {
    add_user(e, "reader", db, Perm::r());
}

#[test]
fn create_database_sets_active_on_first_create() {
    let mut e = Session::new();
    assert_eq!(e.active(), None);
    run(&mut e, "CREATE DATABASE a").unwrap();
    assert_eq!(e.active().as_deref(), Some("a"));
}

#[test]
fn second_create_does_not_change_active() {
    let mut e = Session::new();
    run(&mut e, "CREATE DATABASE a").unwrap();
    run(&mut e, "CREATE DATABASE b").unwrap();
    assert_eq!(e.active().as_deref(), Some("a"));
}

#[test]
fn create_duplicate_database_errors() {
    let mut e = Session::new();
    run(&mut e, "CREATE DATABASE a").unwrap();
    assert_eq!(
        run(&mut e, "CREATE DATABASE a"),
        Err(ExecError::DuplicateDatabase("a".into()))
    );
}

#[test]
fn use_unknown_database_errors() {
    let mut e = Session::new();
    assert_eq!(
        run(&mut e, "USE DATABASE ghost"),
        Err(ExecError::UnknownDatabase("ghost".into()))
    );
}

#[test]
fn use_switches_active() {
    let mut e = Session::new();
    run(&mut e, "CREATE DATABASE a").unwrap();
    run(&mut e, "CREATE DATABASE b").unwrap();
    run(&mut e, "USE DATABASE b").unwrap();
    assert_eq!(e.active().as_deref(), Some("b"));
}

#[test]
fn drop_active_database_clears_active() {
    let mut e = setup();
    run(&mut e, "DROP DATABASE main").unwrap();
    assert_eq!(e.active(), None);
    assert_eq!(
        run(&mut e, "CREATE LENS x int"),
        Err(ExecError::NoActiveDatabase)
    );
}

#[test]
fn drop_unknown_database_errors() {
    let mut e = Session::new();
    assert_eq!(
        run(&mut e, "DROP DATABASE ghost"),
        Err(ExecError::UnknownDatabase("ghost".into()))
    );
}

#[test]
fn create_lens_without_active_database_errors() {
    let mut e = Session::new();
    assert_eq!(
        run(&mut e, "CREATE LENS x int"),
        Err(ExecError::NoActiveDatabase)
    );
}

#[test]
fn create_duplicate_lens_errors() {
    let mut e = setup();
    run(&mut e, "CREATE LENS x int").unwrap();
    assert_eq!(
        run(&mut e, "CREATE LENS x int"),
        Err(ExecError::DuplicateLens("x".into()))
    );
}

#[test]
fn drop_unknown_lens_errors() {
    let mut e = setup();
    assert_eq!(
        run(&mut e, "DROP LENS missing"),
        Err(ExecError::UnknownLens("missing".into()))
    );
}

#[test]
fn append_to_unknown_lens_errors() {
    let mut e = setup();
    assert_eq!(
        run(&mut e, "APPEND LENS x 0 10 1"),
        Err(ExecError::UnknownLens("x".into()))
    );
}

#[test]
fn append_type_mismatch_errors() {
    let mut e = setup();
    run(&mut e, "CREATE LENS x int").unwrap();
    assert_eq!(
        run(&mut e, "APPEND LENS x 0 10 1.5"),
        Err(ExecError::TypeMismatch {
            lens: "x".into(),
            expected: Type::Int,
            got: "float".into(),
        })
    );
}

#[test]
fn append_null_is_permitted_for_any_type() {
    let mut e = setup();
    run(&mut e, "CREATE LENS x int").unwrap();
    run(&mut e, "APPEND LENS x 0 10 null").unwrap();
    assert_eq!(
        run(&mut e, "AT LENS x 5").unwrap(),
        Output::Value(Some(Value::Null))
    );
}

#[test]
fn append_with_inverted_range_errors() {
    let mut e = setup();
    run(&mut e, "CREATE LENS x int").unwrap();
    assert_eq!(
        run(&mut e, "APPEND LENS x 10 5 1"),
        Err(ExecError::InvalidRange)
    );
}

#[test]
fn at_returns_none_for_uncovered_time() {
    let mut e = setup();
    run(&mut e, "CREATE LENS x int").unwrap();
    run(&mut e, "APPEND LENS x 0 10 42").unwrap();
    assert_eq!(run(&mut e, "AT LENS x 50").unwrap(), Output::Value(None));
}

#[test]
fn at_returns_value_in_range() {
    let mut e = setup();
    run(&mut e, "CREATE LENS x int").unwrap();
    run(&mut e, "APPEND LENS x 0 10 42").unwrap();
    assert_eq!(
        run(&mut e, "AT LENS x 5").unwrap(),
        Output::Value(Some(Value::Int(42)))
    );
}

#[test]
fn at_observes_newest_layer() {
    let mut e = setup();
    run(&mut e, "CREATE LENS x int").unwrap();
    run(&mut e, "APPEND LENS x 0 20 1").unwrap();
    run(&mut e, "APPEND LENS x 5 15 2").unwrap();
    assert_eq!(
        run(&mut e, "AT LENS x 3").unwrap(),
        Output::Value(Some(Value::Int(1)))
    );
    assert_eq!(
        run(&mut e, "AT LENS x 10").unwrap(),
        Output::Value(Some(Value::Int(2)))
    );
    assert_eq!(
        run(&mut e, "AT LENS x 17").unwrap(),
        Output::Value(Some(Value::Int(1)))
    );
}

#[test]
fn derive_simple_arithmetic() {
    let mut e = setup();
    run(&mut e, "CREATE LENS c int").unwrap();
    run(&mut e, "APPEND LENS c 0 100 10").unwrap();
    run(&mut e, "DERIVE LENS doubled AS c * 2").unwrap();
    assert_eq!(
        run(&mut e, "AT LENS doubled 50").unwrap(),
        Output::Value(Some(Value::Int(20)))
    );
}

#[test]
fn derive_celsius_to_fahrenheit_float() {
    let mut e = setup();
    run(&mut e, "CREATE LENS c float").unwrap();
    run(&mut e, "APPEND LENS c 0 100 18.0").unwrap();
    run(&mut e, "DERIVE LENS f AS c * 9.0 / 5.0 + 32.0").unwrap();
    let Output::Value(Some(Value::Float(v))) = run(&mut e, "AT LENS f 50").unwrap() else {
        panic!("expected float");
    };
    let v = f64::from_bits(v);
    assert!((v - 64.4).abs() < 1e-9);
}

#[test]
fn derive_changes_type_from_int_to_bool() {
    let mut e = setup();
    run(&mut e, "CREATE LENS x int").unwrap();
    run(&mut e, "APPEND LENS x 0 100 5").unwrap();
    run(&mut e, "DERIVE LENS big AS x > 3").unwrap();
    assert_eq!(
        run(&mut e, "AT LENS big 10").unwrap(),
        Output::Value(Some(Value::Bool(true)))
    );
}

#[test]
fn derive_returns_none_when_source_uncovered() {
    let mut e = setup();
    run(&mut e, "CREATE LENS x int").unwrap();
    run(&mut e, "APPEND LENS x 0 10 1").unwrap();
    run(&mut e, "DERIVE LENS d AS x + 1").unwrap();
    assert_eq!(run(&mut e, "AT LENS d 50").unwrap(), Output::Value(None));
}

#[test]
fn derive_chained() {
    let mut e = setup();
    run(&mut e, "CREATE LENS x int").unwrap();
    run(&mut e, "APPEND LENS x 0 10 5").unwrap();
    run(&mut e, "DERIVE LENS y AS x * 2").unwrap();
    run(&mut e, "DERIVE LENS z AS y + 1").unwrap();
    assert_eq!(
        run(&mut e, "AT LENS z 5").unwrap(),
        Output::Value(Some(Value::Int(11)))
    );
}

#[test]
fn derive_unknown_ident_errors_at_query_time() {
    let mut e = setup();
    run(&mut e, "DERIVE LENS d AS ghost + 1").unwrap();
    assert_eq!(
        run(&mut e, "AT LENS d 0"),
        Err(ExecError::UnknownLens("ghost".into()))
    );
}

#[test]
fn divide_by_zero_errors() {
    let mut e = setup();
    run(&mut e, "CREATE LENS x int").unwrap();
    run(&mut e, "APPEND LENS x 0 10 1").unwrap();
    run(&mut e, "DERIVE LENS d AS x / 0").unwrap();
    assert_eq!(
        run(&mut e, "AT LENS d 5"),
        Err(ExecError::InvalidExpr("divide by zero".into()))
    );
}

#[test]
fn range_returns_segments_split_at_change_points() {
    let mut e = setup();
    run(&mut e, "CREATE LENS x int").unwrap();
    run(&mut e, "APPEND LENS x 0 5 1").unwrap();
    run(&mut e, "APPEND LENS x 5 10 2").unwrap();
    assert_eq!(
        run(&mut e, "RANGE LENS x 0 10").unwrap(),
        Output::Range(vec![(0, 5, Value::Int(1)), (5, 10, Value::Int(2))])
    );
}

#[test]
fn range_merges_adjacent_equal_values() {
    let mut e = setup();
    run(&mut e, "CREATE LENS x int").unwrap();
    run(&mut e, "APPEND LENS x 0 5 7").unwrap();
    run(&mut e, "APPEND LENS x 5 10 7").unwrap();
    assert_eq!(
        run(&mut e, "RANGE LENS x 0 10").unwrap(),
        Output::Range(vec![(0, 10, Value::Int(7))])
    );
}

#[test]
fn range_skips_gaps() {
    let mut e = setup();
    run(&mut e, "CREATE LENS x int").unwrap();
    run(&mut e, "APPEND LENS x 0 5 1").unwrap();
    run(&mut e, "APPEND LENS x 8 10 2").unwrap();
    assert_eq!(
        run(&mut e, "RANGE LENS x 0 10").unwrap(),
        Output::Range(vec![(0, 5, Value::Int(1)), (8, 10, Value::Int(2))])
    );
}

#[test]
fn range_clips_to_query_window() {
    let mut e = setup();
    run(&mut e, "CREATE LENS x int").unwrap();
    run(&mut e, "APPEND LENS x 0 100 9").unwrap();
    assert_eq!(
        run(&mut e, "RANGE LENS x 10 20").unwrap(),
        Output::Range(vec![(10, 20, Value::Int(9))])
    );
}

#[test]
fn range_with_where_filter() {
    let mut e = setup();
    run(&mut e, "CREATE LENS x int").unwrap();
    run(&mut e, "APPEND LENS x 0 5 1").unwrap();
    run(&mut e, "APPEND LENS x 5 10 50").unwrap();
    assert_eq!(
        run(&mut e, "RANGE LENS x 0 10 WHERE x > 10").unwrap(),
        Output::Range(vec![(5, 10, Value::Int(50))])
    );
}

#[test]
fn range_on_derived_lens() {
    let mut e = setup();
    run(&mut e, "CREATE LENS x int").unwrap();
    run(&mut e, "APPEND LENS x 0 5 1").unwrap();
    run(&mut e, "APPEND LENS x 5 10 2").unwrap();
    run(&mut e, "DERIVE LENS y AS x * 10").unwrap();
    assert_eq!(
        run(&mut e, "RANGE LENS y 0 10").unwrap(),
        Output::Range(vec![(0, 5, Value::Int(10)), (5, 10, Value::Int(20))])
    );
}

#[test]
fn range_inverted_errors() {
    let mut e = setup();
    run(&mut e, "CREATE LENS x int").unwrap();
    assert_eq!(
        run(&mut e, "RANGE LENS x 10 5"),
        Err(ExecError::InvalidRange)
    );
}

#[test]
fn range_on_unknown_lens_errors() {
    let mut e = setup();
    assert_eq!(
        run(&mut e, "RANGE LENS ghost 0 10"),
        Err(ExecError::UnknownLens("ghost".into()))
    );
}

#[test]
fn reduce_count_segments() {
    let mut e = setup();
    run(&mut e, "CREATE LENS x int").unwrap();
    run(&mut e, "APPEND LENS x 0 5 1").unwrap();
    run(&mut e, "APPEND LENS x 5 10 2").unwrap();
    assert_eq!(
        run(&mut e, "REDUCE LENS x 0 10 USING count").unwrap(),
        Output::Value(Some(Value::Int(2)))
    );
}

#[test]
fn reduce_sum_integers() {
    let mut e = setup();
    run(&mut e, "CREATE LENS x int").unwrap();
    run(&mut e, "APPEND LENS x 0 5 3").unwrap();
    run(&mut e, "APPEND LENS x 5 10 7").unwrap();
    assert_eq!(
        run(&mut e, "REDUCE LENS x 0 10 USING sum").unwrap(),
        Output::Value(Some(Value::Int(10)))
    );
}

#[test]
fn reduce_min_max() {
    let mut e = setup();
    run(&mut e, "CREATE LENS x int").unwrap();
    run(&mut e, "APPEND LENS x 0 5 3").unwrap();
    run(&mut e, "APPEND LENS x 5 10 7").unwrap();
    assert_eq!(
        run(&mut e, "REDUCE LENS x 0 10 USING min").unwrap(),
        Output::Value(Some(Value::Int(3)))
    );
    assert_eq!(
        run(&mut e, "REDUCE LENS x 0 10 USING max").unwrap(),
        Output::Value(Some(Value::Int(7)))
    );
}

#[test]
fn reduce_avg_time_weighted() {
    // Two equal-duration segments: avg = (3+7)/2 = 5.0
    let mut e = setup();
    run(&mut e, "CREATE LENS x int").unwrap();
    run(&mut e, "APPEND LENS x 0 5 3").unwrap();
    run(&mut e, "APPEND LENS x 5 10 7").unwrap();
    let Output::Value(Some(Value::Float(v))) = run(&mut e, "REDUCE LENS x 0 10 USING avg").unwrap()
    else {
        panic!("expected float");
    };
    let v = f64::from_bits(v);
    assert!((v - 5.0).abs() < 1e-9);
}

#[test]
fn reduce_avg_weighted_by_duration() {
    // [0,1) = 1, [1,10) = 10 so weighted avg = (1*1 + 9*10) / 10 = 91/10 = 9.1
    let mut e = setup();
    run(&mut e, "CREATE LENS x int").unwrap();
    run(&mut e, "APPEND LENS x 0 1 1").unwrap();
    run(&mut e, "APPEND LENS x 1 10 10").unwrap();
    let Output::Value(Some(Value::Float(v))) = run(&mut e, "REDUCE LENS x 0 10 USING avg").unwrap()
    else {
        panic!("expected float");
    };
    let v = f64::from_bits(v);
    assert!((v - 9.1).abs() < 1e-9);
}

#[test]
fn reduce_returns_none_for_uncovered_range() {
    let mut e = setup();
    run(&mut e, "CREATE LENS x int").unwrap();
    run(&mut e, "APPEND LENS x 0 5 1").unwrap();
    assert_eq!(
        run(&mut e, "REDUCE LENS x 10 20 USING avg").unwrap(),
        Output::Value(None)
    );
}

#[test]
fn reduce_inverted_range_errors() {
    let mut e = setup();
    run(&mut e, "CREATE LENS x int").unwrap();
    assert_eq!(
        run(&mut e, "REDUCE LENS x 10 5 USING min"),
        Err(ExecError::InvalidRange)
    );
}

#[test]
fn reduce_unknown_lens_errors() {
    let mut e = setup();
    assert_eq!(
        run(&mut e, "REDUCE LENS ghost 0 10 USING avg"),
        Err(ExecError::UnknownLens("ghost".into()))
    );
}

#[test]
fn derive_with_rolling_avg() {
    // avg(x, -10, 0) at t=10 covers [0,10): values [0,5)=1 and [5,10)=2
    // time-weighted avg = (5*1 + 5*2) / 10 = 1.5
    let mut e = setup();
    run(&mut e, "CREATE LENS x int").unwrap();
    run(&mut e, "APPEND LENS x 0 5 1").unwrap();
    run(&mut e, "APPEND LENS x 5 10 2").unwrap();
    run(&mut e, "DERIVE LENS smooth AS avg(x, -10, 0)").unwrap();
    let Output::Value(Some(Value::Float(v))) = run(&mut e, "AT LENS smooth 10").unwrap() else {
        panic!("expected float");
    };
    let v = f64::from_bits(v);
    assert!((v - 1.5).abs() < 1e-9);
}

#[test]
fn derive_with_rolling_min() {
    let mut e = setup();
    run(&mut e, "CREATE LENS x int").unwrap();
    run(&mut e, "APPEND LENS x 0 5 10").unwrap();
    run(&mut e, "APPEND LENS x 5 10 3").unwrap();
    run(&mut e, "DERIVE LENS lo AS min(x, -10, 0)").unwrap();
    // at t=10 window covers [0,10): min of 10 and 3 = 3
    assert_eq!(
        run(&mut e, "AT LENS lo 10").unwrap(),
        Output::Value(Some(Value::Int(3)))
    );
}

#[test]
fn derive_agg_in_comparison() {
    // hot = x > avg(x, -10, 0): true when current value exceeds rolling avg
    let mut e = setup();
    run(&mut e, "CREATE LENS x int").unwrap();
    run(&mut e, "APPEND LENS x 0 5 1").unwrap();
    run(&mut e, "APPEND LENS x 5 10 2").unwrap();
    run(&mut e, "DERIVE LENS hot AS x > avg(x, -10, 0)").unwrap();
    assert_eq!(
        run(&mut e, "AT LENS hot 5").unwrap(),
        Output::Value(Some(Value::Bool(true)))
    );
}

#[test]
fn reduce_on_derived_lens() {
    let mut e = setup();
    run(&mut e, "CREATE LENS x int").unwrap();
    run(&mut e, "APPEND LENS x 0 5 2").unwrap();
    run(&mut e, "APPEND LENS x 5 10 4").unwrap();
    run(&mut e, "DERIVE LENS doubled AS x * 2").unwrap();
    assert_eq!(
        run(&mut e, "REDUCE LENS doubled 0 10 USING sum").unwrap(),
        Output::Value(Some(Value::Int(12)))
    );
    // doubled over [0,5) = 4, over [5,10) = 8; sum = 4+8 = 12
}

#[test]
fn lenses_are_isolated_per_database() {
    let mut e = Session::new();
    run(&mut e, "CREATE DATABASE a").unwrap();
    run(&mut e, "CREATE LENS x int").unwrap();
    run(&mut e, "APPEND LENS x 0 10 1").unwrap();

    run(&mut e, "CREATE DATABASE b").unwrap();
    run(&mut e, "USE DATABASE b").unwrap();
    assert_eq!(
        run(&mut e, "AT LENS x 5"),
        Err(ExecError::UnknownLens("x".into()))
    );

    run(&mut e, "USE DATABASE a").unwrap();
    assert_eq!(
        run(&mut e, "AT LENS x 5").unwrap(),
        Output::Value(Some(Value::Int(1)))
    );
}

#[test]
fn append_multi_tau_single_layer() {
    let mut e = setup();
    run(&mut e, "CREATE LENS x int").unwrap();
    run(&mut e, "APPEND LENS x 0 5 1, 5 10 2, 10 15 3").unwrap();
    assert_eq!(
        run(&mut e, "AT LENS x 3").unwrap(),
        Output::Value(Some(Value::Int(1)))
    );
    assert_eq!(
        run(&mut e, "AT LENS x 7").unwrap(),
        Output::Value(Some(Value::Int(2)))
    );
    assert_eq!(
        run(&mut e, "AT LENS x 12").unwrap(),
        Output::Value(Some(Value::Int(3)))
    );
}

#[test]
fn append_multi_tau_type_mismatch_rejects_all() {
    let mut e = setup();
    run(&mut e, "CREATE LENS x int").unwrap();
    assert!(matches!(
        run(&mut e, "APPEND LENS x 0 5 1, 5 10 1.5"),
        Err(ExecError::TypeMismatch { .. })
    ));
    // No partial write - lens should still have no data.
    assert_eq!(run(&mut e, "AT LENS x 3").unwrap(), Output::Value(None));
}

#[test]
fn show_databases_lists_all() {
    let mut e = Session::new();
    run(&mut e, "CREATE DATABASE alpha").unwrap();
    run(&mut e, "CREATE DATABASE beta").unwrap();
    let Output::Names(mut names) = run(&mut e, "SHOW DATABASES").unwrap() else {
        panic!("expected Names output");
    };
    names.sort();
    assert_eq!(names, vec!["alpha", "beta"]);
}

#[test]
fn show_lenses_lists_base_and_derived() {
    let mut e = setup();
    run(&mut e, "CREATE LENS a int").unwrap();
    run(&mut e, "CREATE LENS b float").unwrap();
    run(&mut e, "DERIVE LENS c AS a + 1").unwrap();
    let Output::Names(mut names) = run(&mut e, "SHOW LENSES").unwrap() else {
        panic!("expected Names output");
    };
    names.sort();
    assert_eq!(names, vec!["a", "b", "c"]);
}

#[test]
fn show_lenses_requires_active_database() {
    let mut e = Session::new();
    assert_eq!(
        e.exec_read(&parse("SHOW LENSES").unwrap().1),
        Err(ExecError::NoActiveDatabase)
    );
}

#[test]
fn cycle_detection_direct_self_reference() {
    let mut e = setup();
    run(&mut e, "CREATE LENS x int").unwrap();
    assert_eq!(
        run(&mut e, "DERIVE LENS x2 AS x2 + 1"),
        Err(ExecError::CycleDetected("x2".into()))
    );
}

#[test]
fn cycle_detection_transitive() {
    let mut e = setup();
    run(&mut e, "CREATE LENS x int").unwrap();
    run(&mut e, "DERIVE LENS y AS x + 1").unwrap();
    run(&mut e, "DERIVE LENS z AS y + 1").unwrap();
    // z reads y, y reads x: fine. Now w would read itself through z.
    assert_eq!(
        run(&mut e, "DERIVE LENS w AS z + w"),
        Err(ExecError::CycleDetected("w".into()))
    );
}


#[test]
fn exec_as_admin_can_do_anything() {
    let mut e = Session::new();
    install_admin(&mut e);
    let (_, stmt) = parse("CREATE DATABASE main").unwrap();
    assert_eq!(e.exec_as(&stmt, "admin").unwrap(), Output::Empty);
    let (_, stmt) = parse("CREATE LENS x int").unwrap();
    assert_eq!(e.exec_as(&stmt, "admin").unwrap(), Output::Empty);
    let (_, stmt) = parse("APPEND LENS x 0 10 42").unwrap();
    assert_eq!(e.exec_as(&stmt, "admin").unwrap(), Output::Empty);
    let (_, stmt) = parse("AT LENS x 5").unwrap();
    assert_eq!(
        e.exec_as(&stmt, "admin").unwrap(),
        Output::Value(Some(Value::Int(42)))
    );
}

#[test]
fn exec_as_reader_can_read_not_write() {
    let mut e = Session::new();
    install_admin(&mut e);
    let (_, stmt) = parse("CREATE DATABASE main").unwrap();
    e.exec_as(&stmt, "admin").unwrap();
    let (_, stmt) = parse("CREATE LENS x int").unwrap();
    e.exec_as(&stmt, "admin").unwrap();
    let (_, stmt) = parse("APPEND LENS x 0 10 42").unwrap();
    e.exec_as(&stmt, "admin").unwrap();
    install_reader(&mut e, "main");

    // Reader can read.
    let (_, stmt) = parse("AT LENS x 5").unwrap();
    assert!(matches!(
        e.exec_read_as(&stmt, "reader").unwrap(),
        Output::Value(Some(Value::Int(42)))
    ));
    // Reader cannot append.
    let (_, stmt) = parse("APPEND LENS x 10 20 99").unwrap();
    assert!(matches!(
        e.exec_as(&stmt, "reader"),
        Err(ExecError::PermissionDenied(_))
    ));
    // Reader cannot drop.
    let (_, stmt) = parse("DROP LENS x").unwrap();
    assert!(matches!(
        e.exec_as(&stmt, "reader"),
        Err(ExecError::PermissionDenied(_))
    ));
    // Reader cannot create a database.
    let (_, stmt) = parse("CREATE DATABASE other").unwrap();
    assert!(matches!(
        e.exec_as(&stmt, "reader"),
        Err(ExecError::PermissionDenied(_))
    ));
    // Reader cannot manage users.
    let (_, stmt) = parse("CREATE USER newbie PASSWORD \"x\"").unwrap();
    assert!(matches!(
        e.exec_as(&stmt, "reader"),
        Err(ExecError::PermissionDenied(_))
    ));
}

#[test]
fn exec_as_unknown_user_errors() {
    let mut e = Session::new();
    let (_, stmt) = parse("SHOW DATABASES").unwrap();
    assert!(matches!(
        e.exec_as(&stmt, "ghost"),
        Err(ExecError::UnknownUser(_))
    ));
}

#[test]
fn admin_can_create_drop_user_and_grant() {
    let mut e = Session::new();
    install_admin(&mut e);
    let (_, stmt) = parse("CREATE USER bob PASSWORD \"hunter2\"").unwrap();
    e.exec_as(&stmt, "admin").unwrap();
    assert!(e.kernel.auth.users().get("bob").is_some());

    let (_, stmt) = parse("GRANT R ON main TO bob").unwrap();
    e.exec_as(&stmt, "admin").unwrap();
    assert_eq!(e.kernel.auth.users().get("bob").unwrap().effective("main"), Perm::r());

    let (_, stmt) = parse("REVOKE R ON main FROM bob").unwrap();
    e.exec_as(&stmt, "admin").unwrap();
    assert_eq!(e.kernel.auth.users().get("bob").unwrap().effective("main"), Perm::none());

    let (_, stmt) = parse("DROP USER bob").unwrap();
    e.exec_as(&stmt, "admin").unwrap();
    assert!(e.kernel.auth.users().get("bob").is_none());
}

#[test]
fn promote_to_admin_via_a_bit() {
    let mut e = Session::new();
    install_admin(&mut e);
    let (_, stmt) = parse("CREATE USER bob PASSWORD \"p\"").unwrap();
    e.exec_as(&stmt, "admin").unwrap();
    // Before promotion bob cannot create users.
    let (_, stmt) = parse("CREATE USER carol PASSWORD \"p\"").unwrap();
    assert!(matches!(
        e.exec_as(&stmt, "bob"),
        Err(ExecError::PermissionDenied(_))
    ));
    // Promote bob with A on the wildcard database.
    let (_, stmt) = parse("GRANT A ON * TO bob").unwrap();
    e.exec_as(&stmt, "admin").unwrap();
    // Now bob can create users.
    let (_, stmt) = parse("CREATE USER carol PASSWORD \"p\"").unwrap();
    assert!(e.exec_as(&stmt, "bob").is_ok());
}

#[test]
fn show_databases_filters_for_non_admin() {
    let mut e = Session::new();
    install_admin(&mut e);
    let (_, stmt) = parse("CREATE DATABASE alpha").unwrap();
    e.exec_as(&stmt, "admin").unwrap();
    let (_, stmt) = parse("CREATE DATABASE beta").unwrap();
    e.exec_as(&stmt, "admin").unwrap();

    add_user(&mut e, "alice", "alpha", Perm::r());

    let (_, stmt) = parse("SHOW DATABASES").unwrap();
    let out = e.exec_as(&stmt, "alice").unwrap();
    match out {
        Output::Names(names) => assert_eq!(names, vec!["alpha"]),
        _ => panic!("expected Names"),
    }
    let out = e.exec_as(&stmt, "admin").unwrap();
    match out {
        Output::Names(mut names) => {
            names.sort();
            assert_eq!(names, vec!["alpha", "beta"]);
        }
        _ => panic!("expected Names"),
    }
}

#[test]
fn transaction_start_returns_ok() {
    let mut e = setup();
    assert_eq!(run(&mut e, "START TRANSACTION").unwrap(), Output::Empty);
}

#[test]
fn commit_without_active_transaction_errors() {
    let mut e = setup();
    assert_eq!(run(&mut e, "COMMIT"), Err(ExecError::NoActiveTransaction));
}

#[test]
fn rollback_without_active_transaction_errors() {
    let mut e = setup();
    assert_eq!(run(&mut e, "ROLLBACK"), Err(ExecError::NoActiveTransaction));
}

#[test]
fn nested_start_transaction_errors() {
    let mut e = setup();
    run(&mut e, "START TRANSACTION").unwrap();
    assert_eq!(
        run(&mut e, "START TRANSACTION"),
        Err(ExecError::TransactionAlreadyActive)
    );
}

#[test]
fn transaction_rollback_discards_appends() {
    let mut e = setup();
    run(&mut e, "CREATE LENS x int").unwrap();
    run(&mut e, "START TRANSACTION").unwrap();
    run(&mut e, "APPEND LENS x 0 10 42").unwrap();
    run(&mut e, "ROLLBACK").unwrap();
    assert_eq!(run(&mut e, "AT LENS x 5").unwrap(), Output::Value(None));
}

#[test]
fn appends_within_transaction_not_visible_before_commit() {
    let mut e = setup();
    run(&mut e, "CREATE LENS x int").unwrap();
    run(&mut e, "START TRANSACTION").unwrap();
    run(&mut e, "APPEND LENS x 0 10 42").unwrap();
    // Data should not be visible until COMMIT.
    assert_eq!(run(&mut e, "AT LENS x 5").unwrap(), Output::Value(None));
    run(&mut e, "COMMIT").unwrap();
    assert_eq!(
        run(&mut e, "AT LENS x 5").unwrap(),
        Output::Value(Some(Value::Int(42)))
    );
}

#[test]
fn committed_transaction_matches_direct_writes() {
    for seed in 1..=25 {
        let mut tc = Draw(seed);
        let n = tc.within(1, 6) as usize;
        let mut segs: Vec<(i64, i64, i64)> = Vec::new();
        let mut cursor: i64 = 0;
        for _ in 0..n {
            let gap = tc.within(1, 1_000);
            let len = tc.within(1, 1_000);
            let val = tc.within(-10_000, 10_000);
            let s = cursor + gap;
            let e = s + len;
            segs.push((s, e, val));
            cursor = e;
        }

        let mut direct = setup();
        run(&mut direct, "CREATE LENS x int").unwrap();
        for &(s, e, v) in &segs {
            run(&mut direct, &format!("APPEND LENS x {s} {e} {v}")).unwrap();
        }

        let mut tx = setup();
        run(&mut tx, "CREATE LENS x int").unwrap();
        run(&mut tx, "START TRANSACTION").unwrap();
        for &(s, e, v) in &segs {
            run(&mut tx, &format!("APPEND LENS x {s} {e} {v}")).unwrap();
        }
        run(&mut tx, "COMMIT").unwrap();

        for &(s, e, v) in &segs {
            let mid = s + (e - s) / 2;
            assert_eq!(
                run(&mut direct, &format!("AT LENS x {mid}")).unwrap(),
                run(&mut tx, &format!("AT LENS x {mid}")).unwrap(),
                "segment [{s},{e}) value {v} diverged after commit"
            );
        }
    }
}

#[test]
fn rollback_leaves_lens_unchanged() {
    for seed in 1..=25 {
        let mut tc = Draw(seed);
        let base_val = tc.within(-10_000, 10_000);
        let tx_val = tc.within(-10_000, 10_000);

        let mut e = setup();
        run(&mut e, "CREATE LENS x int").unwrap();
        run(&mut e, &format!("APPEND LENS x 0 100 {base_val}")).unwrap();

        run(&mut e, "START TRANSACTION").unwrap();
        run(&mut e, &format!("APPEND LENS x 100 200 {tx_val}")).unwrap();
        run(&mut e, "ROLLBACK").unwrap();

        assert_eq!(
            run(&mut e, "AT LENS x 50").unwrap(),
            Output::Value(Some(Value::Int(base_val))),
            "base data corrupted by rollback"
        );
        assert_eq!(
            run(&mut e, "AT LENS x 150").unwrap(),
            Output::Value(None),
            "rolled-back data still visible"
        );
    }
}

#[test]
fn pending_writes_invisible_before_commit() {
    for seed in 1..=25 {
        let mut tc = Draw(seed);
        let val = tc.within(-10_000, 10_000);
        let s = tc.within(1, 1_000);
        let e_ts = s + tc.within(1, 1_000);

        let mut exec = setup();
        run(&mut exec, "CREATE LENS x int").unwrap();
        run(&mut exec, "START TRANSACTION").unwrap();
        run(&mut exec, &format!("APPEND LENS x {s} {e_ts} {val}")).unwrap();

        let mid = s + (e_ts - s) / 2;
        assert_eq!(
            run(&mut exec, &format!("AT LENS x {mid}")).unwrap(),
            Output::Value(None),
            "pending write visible before COMMIT"
        );
    }
}

#[test]
fn multiple_sequential_transactions_accumulate() {
    for seed in 1..=25 {
        let mut tc = Draw(seed);
        let n = tc.within(1, 5) as usize;
        let vals: Vec<i64> = (0..n)
            .map(|_| tc.within(-10_000, 10_000))
            .collect();

        let mut e = setup();
        run(&mut e, "CREATE LENS x int").unwrap();
        for (i, &v) in vals.iter().enumerate() {
            let s = (i as i64) * 100;
            let end = s + 100;
            run(&mut e, "START TRANSACTION").unwrap();
            run(&mut e, &format!("APPEND LENS x {s} {end} {v}")).unwrap();
            run(&mut e, "COMMIT").unwrap();
        }
        for (i, &v) in vals.iter().enumerate() {
            let mid = (i as i64) * 100 + 50;
            assert_eq!(
                run(&mut e, &format!("AT LENS x {mid}")).unwrap(),
                Output::Value(Some(Value::Int(v))),
                "tx {i} value {v} missing after sequential commits"
            );
        }
    }
}

#[test]
fn rollback_then_commit_independent() {
    for seed in 1..=25 {
        let mut tc = Draw(seed);
        let discard_val = tc.within(-10_000, 10_000);
        let keep_val = tc.within(-10_000, 10_000);

        let mut e = setup();
        run(&mut e, "CREATE LENS x int").unwrap();

        run(&mut e, "START TRANSACTION").unwrap();
        run(&mut e, &format!("APPEND LENS x 0 100 {discard_val}")).unwrap();
        run(&mut e, "ROLLBACK").unwrap();

        run(&mut e, "START TRANSACTION").unwrap();
        run(&mut e, &format!("APPEND LENS x 0 100 {keep_val}")).unwrap();
        run(&mut e, "COMMIT").unwrap();

        assert_eq!(
            run(&mut e, "AT LENS x 50").unwrap(),
            Output::Value(Some(Value::Int(keep_val))),
            "committed value wrong after preceding rollback"
        );
    }
}

#[test]
fn batch_append_produces_same_at_result_as_append() {
    let mut e = setup();
    run(&mut e, "CREATE LENS x int").unwrap();
    run(&mut e, "BATCH APPEND LENS x { 0 10 42 ; 20 30 99 }").unwrap();
    assert_eq!(
        run(&mut e, "AT LENS x 5").unwrap(),
        Output::Value(Some(Value::Int(42)))
    );
    assert_eq!(
        run(&mut e, "AT LENS x 25").unwrap(),
        Output::Value(Some(Value::Int(99)))
    );
    assert_eq!(run(&mut e, "AT LENS x 15").unwrap(), Output::Value(None));
}

#[test]
fn batch_append_empty_block_succeeds() {
    let mut e = setup();
    run(&mut e, "CREATE LENS x int").unwrap();
    assert_eq!(
        run(&mut e, "BATCH APPEND LENS x {}").unwrap(),
        Output::Empty
    );
}

#[test]
fn batch_append_matches_regular_append() {
    for seed in 1..=25 {
        let mut tc = Draw(seed);
        let n = tc.within(1, 6) as usize;
        let mut segs: Vec<(i64, i64, i64)> = Vec::new();
        let mut cursor: i64 = 0;
        for _ in 0..n {
            let gap = tc.within(1, 1_000);
            let len = tc.within(1, 1_000);
            let val = tc.within(-10_000, 10_000);
            let s = cursor + gap;
            let e = s + len;
            segs.push((s, e, val));
            cursor = e;
        }

        let mut direct = setup();
        run(&mut direct, "CREATE LENS x int").unwrap();
        let mut append_stmt = "APPEND LENS x".to_string();
        for (i, &(s, e, v)) in segs.iter().enumerate() {
            if i > 0 {
                append_stmt.push(',');
            }
            append_stmt.push_str(&format!(" {s} {e} {v}"));
        }
        run(&mut direct, &append_stmt).unwrap();

        let mut batch = setup();
        run(&mut batch, "CREATE LENS x int").unwrap();
        let body = segs
            .iter()
            .map(|(s, e, v)| format!("{s} {e} {v}"))
            .collect::<Vec<_>>()
            .join(" ; ");
        run(&mut batch, &format!("BATCH APPEND LENS x {{ {body} }}")).unwrap();

        for &(s, e, v) in &segs {
            let mid = s + (e - s) / 2;
            assert_eq!(
                run(&mut direct, &format!("AT LENS x {mid}")).unwrap(),
                run(&mut batch, &format!("AT LENS x {mid}")).unwrap(),
                "segment [{s},{e}) value {v} diverged between APPEND and BATCH APPEND"
            );
        }
    }
}

#[test]
fn history_lens_returns_one_layer_after_append() {
    let mut e = setup();
    run(&mut e, "CREATE LENS x int").unwrap();
    run(&mut e, "APPEND LENS x 0 10 42").unwrap();
    let (_, stmt) = parse("HISTORY LENS x").unwrap();
    let out = e.exec_read(&stmt).unwrap();
    let layers = match out {
        Output::LayerHistory(l) => l,
        other => panic!("expected LayerHistory, got {other:?}"),
    };
    assert_eq!(layers.len(), 1);
    assert_eq!(layers[0].tau_count, 1);
    assert_eq!(layers[0].min_start, 0);
    assert_eq!(layers[0].max_end, 10);
}

#[test]
fn history_lens_empty_on_no_data() {
    let mut e = setup();
    run(&mut e, "CREATE LENS x int").unwrap();
    let (_, stmt) = parse("HISTORY LENS x").unwrap();
    let out = e.exec_read(&stmt).unwrap();
    assert_eq!(out, Output::LayerHistory(vec![]));
}

#[test]
fn history_lens_time_filter_excludes_non_overlapping_layers() {
    let mut e = setup();
    run(&mut e, "CREATE LENS x int").unwrap();
    run(&mut e, "APPEND LENS x 0 10 1").unwrap();
    run(&mut e, "APPEND LENS x 100 200 2").unwrap();
    let (_, stmt) = parse("HISTORY LENS x 50 150").unwrap();
    let out = e.exec_read(&stmt).unwrap();
    let layers = match out {
        Output::LayerHistory(l) => l,
        other => panic!("expected LayerHistory, got {other:?}"),
    };
    // Only the second layer (100..200) overlaps [50, 150).
    assert_eq!(layers.len(), 1);
    assert_eq!(layers[0].min_start, 100);
}

#[test]
fn history_lens_layer_count_matches_appends() {
    for seed in 1..=25 {
        let mut tc = Draw(seed);
        let n = tc.within(1, 8) as usize;
        let mut e = setup();
        run(&mut e, "CREATE LENS x int").unwrap();
        for i in 0..n {
            let s = (i as i64) * 100;
            run(&mut e, &format!("APPEND LENS x {s} {} {i}", s + 50)).unwrap();
        }
        let (_, stmt) = parse("HISTORY LENS x").unwrap();
        let layers = match e.exec_read(&stmt).unwrap() {
            Output::LayerHistory(l) => l,
            other => panic!("expected LayerHistory, got {other:?}"),
        };
        // Each APPEND creates one layer (assuming no compaction at threshold 4; n <= 8 may
        // trigger one compaction round, so check >= 1 and <= n).
        assert!(
            !layers.is_empty(),
            "expected at least one layer after {n} appends"
        );
        assert!(
            layers.len() <= n,
            "layer count {} > append count {n} (compaction should only reduce)",
            layers.len()
        );
    }
}

#[test]
fn at_as_of_with_max_timestamp_includes_all_data() {
    let mut e = setup();
    run(&mut e, "CREATE LENS x int").unwrap();
    run(&mut e, "APPEND LENS x 0 10 42").unwrap();
    // written_at=0 for in-memory appends, so any as_of value includes them.
    let (_, stmt) = parse("AT LENS x 5 AS OF 9999999999999").unwrap();
    assert_eq!(
        e.exec_read(&stmt).unwrap(),
        Output::Value(Some(Value::Int(42)))
    );
}

#[test]
fn at_as_of_derived_lens_errors() {
    let mut e = setup();
    run(&mut e, "CREATE LENS x int").unwrap();
    run(&mut e, "DERIVE LENS y AS x").unwrap();
    let (_, stmt) = parse("AT LENS y 5 AS OF 0").unwrap();
    assert!(
        e.exec_read(&stmt).is_err(),
        "AT AS OF on a derived lens should error"
    );
}

#[test]
fn at_layer_returns_value_from_correct_layer() {
    let mut e = setup();
    run(&mut e, "CREATE LENS x int").unwrap();
    run(&mut e, "APPEND LENS x 0 10 42").unwrap();
    let (_, hist_stmt) = parse("HISTORY LENS x").unwrap();
    let layer_id = match e.exec_read(&hist_stmt).unwrap() {
        Output::LayerHistory(layers) => layers[0].id,
        other => panic!("expected LayerHistory, got {other:?}"),
    };
    let (_, stmt) = parse(&format!("AT LENS x 5 LAYER {layer_id}")).unwrap();
    assert_eq!(
        e.exec_read(&stmt).unwrap(),
        Output::Value(Some(Value::Int(42)))
    );
}

#[test]
fn at_layer_nonexistent_layer_returns_nil() {
    let mut e = setup();
    run(&mut e, "CREATE LENS x int").unwrap();
    run(&mut e, "APPEND LENS x 0 10 42").unwrap();
    let (_, stmt) = parse("AT LENS x 5 LAYER 99999").unwrap();
    assert_eq!(e.exec_read(&stmt).unwrap(), Output::Value(None));
}

#[test]
fn at_as_of_with_large_timestamp_matches_at() {
    for seed in 1..=25 {
        let mut tc = Draw(seed);
        let n = tc.within(1, 6) as usize;
        let mut segs: Vec<(i64, i64, i64)> = Vec::new();
        let mut cursor: i64 = 0;
        for _ in 0..n {
            let gap = tc.within(1, 1_000);
            let len = tc.within(1, 1_000);
            let val = tc.within(-10_000, 10_000);
            let s = cursor + gap;
            let e = s + len;
            segs.push((s, e, val));
            cursor = e;
        }
        let mut ex = setup();
        run(&mut ex, "CREATE LENS x int").unwrap();
        for &(s, end, v) in &segs {
            run(&mut ex, &format!("APPEND LENS x {s} {end} {v}")).unwrap();
        }
        for &(s, end, _) in &segs {
            let mid = s + (end - s) / 2;
            let at_result = run(&mut ex, &format!("AT LENS x {mid}")).unwrap();
            let (_, stmt) = parse(&format!("AT LENS x {mid} AS OF 9999999999999")).unwrap();
            let as_of_result = ex.exec_read(&stmt).unwrap();
            assert_eq!(
                at_result, as_of_result,
                "AT and AT AS OF diverged at t={mid}"
            );
        }
    }
}

#[test]
fn at_layer_for_single_layer_matches_at() {
    for seed in 1..=25 {
        let mut tc = Draw(seed);
        let s = tc.within(0, 1_000);
        let len = tc.within(1, 1_000);
        let val = tc.within(-10_000, 10_000);
        let end = s + len;
        let mid = s + len / 2;
        let mut ex = setup();
        run(&mut ex, "CREATE LENS x int").unwrap();
        run(&mut ex, &format!("APPEND LENS x {s} {end} {val}")).unwrap();
        let (_, hist_stmt) = parse("HISTORY LENS x").unwrap();
        let layer_id = match ex.exec_read(&hist_stmt).unwrap() {
            Output::LayerHistory(layers) => {
                assert_eq!(layers.len(), 1, "expected exactly one layer");
                layers[0].id
            }
            other => panic!("expected LayerHistory, got {other:?}"),
        };
        let at_result = run(&mut ex, &format!("AT LENS x {mid}")).unwrap();
        let (_, stmt) = parse(&format!("AT LENS x {mid} LAYER {layer_id}")).unwrap();
        let layer_result = ex.exec_read(&stmt).unwrap();
        assert_eq!(
            at_result, layer_result,
            "AT and AT LAYER diverged with single layer at t={mid}"
        );
    }
}

#[test]
fn reduce_avg_on_derived_lens_uses_base_tau_boundaries() {
    let mut e = setup();
    run(&mut e, "CREATE LENS temp float").unwrap();
    run(&mut e, "APPEND LENS temp 0 3600 18.5, 3600 7200 21.0").unwrap();
    run(&mut e, "DERIVE LENS fahrenheit AS temp * 9.0 / 5.0 + 32.0").unwrap();

    let Output::Value(Some(Value::Float(f))) =
        run(&mut e, "REDUCE LENS fahrenheit 0 7200 USING avg").unwrap()
    else {
        panic!("expected float value");
    };
    let f = f64::from_bits(f);
    // time-weighted: 3600 * (18.5*9/5+32) + 3600 * (21*9/5+32) all over 7200
    // = (65.3 + 69.8) / 2 = 67.55
    assert!((f - 67.55).abs() < 0.01, "got {f}");
}

#[test]
fn reduce_sum_on_derived_lens() {
    let mut e = setup();
    run(&mut e, "CREATE LENS x int").unwrap();
    run(&mut e, "APPEND LENS x 0 10 3, 10 20 7").unwrap();
    run(&mut e, "DERIVE LENS doubled AS x * 2").unwrap();

    let Output::Value(Some(v)) = run(&mut e, "REDUCE LENS doubled 0 20 USING sum").unwrap() else {
        panic!("expected value");
    };
    // 3*2=6 and 7*2=14; sum (not time-weighted) = 6+14 = 20
    assert_eq!(v, Value::Int(20));
}

#[test]
fn reduce_min_max_on_derived_lens() {
    let mut e = setup();
    run(&mut e, "CREATE LENS base int").unwrap();
    run(&mut e, "APPEND LENS base 0 5 10, 5 10 4, 10 15 7").unwrap();
    run(&mut e, "DERIVE LENS neg AS base * -1").unwrap();

    let Output::Value(Some(Value::Int(min))) =
        run(&mut e, "REDUCE LENS neg 0 15 USING min").unwrap()
    else {
        panic!()
    };
    let Output::Value(Some(Value::Int(max))) =
        run(&mut e, "REDUCE LENS neg 0 15 USING max").unwrap()
    else {
        panic!()
    };
    assert_eq!(min, -10); // min of [-10, -4, -7]
    assert_eq!(max, -4); // max of [-10, -4, -7]
}

#[test]
fn range_limit_truncates_segments() {
    for seed in 1..=25 {
        let mut tc = Draw(seed);
        let n = tc.within(2, 10) as usize;
        let limit = tc.within(1, n as i64 - 1) as usize;
        let mut e = Session::new();
        run(&mut e, "CREATE DATABASE main").unwrap();
        run(&mut e, "CREATE LENS x int").unwrap();
        // append n non-overlapping unit-width taus
        let taus: String = (0..n as i64)
            .map(|i| format!("{} {} {}", i, i + 1, i))
            .collect::<Vec<_>>()
            .join(", ");
        run(&mut e, &format!("APPEND LENS x {taus}")).unwrap();

        let Output::Range(segs) = run(&mut e, &format!("RANGE LENS x 0 {n} LIMIT {limit}")).unwrap()
        else {
            panic!("expected range");
        };
        assert_eq!(segs.len(), limit, "limit={limit} n={n} segs={}", segs.len());
    }
}

#[test]
fn range_offset_skips_segments() {
    let mut e = Session::new();
    run(&mut e, "CREATE DATABASE main").unwrap();
    run(&mut e, "CREATE LENS x int").unwrap();
    run(&mut e, "APPEND LENS x 0 1 10, 1 2 20, 2 3 30, 3 4 40").unwrap();

    let Output::Range(all) = run(&mut e, "RANGE LENS x 0 4").unwrap() else {
        panic!()
    };
    assert_eq!(all.len(), 4);

    let Output::Range(skipped) = run(&mut e, "RANGE LENS x 0 4 OFFSET 2").unwrap() else {
        panic!()
    };
    assert_eq!(skipped.len(), 2);
    assert_eq!(skipped[0], all[2]);
    assert_eq!(skipped[1], all[3]);
}

#[test]
fn range_limit_and_offset_compose() {
    let mut e = Session::new();
    run(&mut e, "CREATE DATABASE main").unwrap();
    run(&mut e, "CREATE LENS x int").unwrap();
    run(&mut e, "APPEND LENS x 0 1 10, 1 2 20, 2 3 30, 3 4 40").unwrap();

    let Output::Range(page) = run(&mut e, "RANGE LENS x 0 4 LIMIT 2 OFFSET 1").unwrap() else {
        panic!()
    };
    assert_eq!(page.len(), 2);
    assert_eq!(page[0].2, Value::Int(20));
    assert_eq!(page[1].2, Value::Int(30));
}

#[test]
fn multi_db_transaction_is_atomic() {
    let mut e = Session::new();
    run(&mut e, "CREATE DATABASE db1").unwrap();
    run(&mut e, "CREATE LENS a int").unwrap();
    run(&mut e, "CREATE DATABASE db2").unwrap();
    run(&mut e, "USE DATABASE db2").unwrap();
    run(&mut e, "CREATE LENS b int").unwrap();

    // Transaction: write to db1 and db2 atomically.
    // USE DATABASE executes immediately (updates active context for subsequent
    // buffer captures); APPEND statements are buffered with their current DB.
    run(&mut e, "START TRANSACTION").unwrap();
    run(&mut e, "USE DATABASE db1").unwrap();
    run(&mut e, "APPEND LENS a 0 100 1").unwrap();
    run(&mut e, "USE DATABASE db2").unwrap();
    run(&mut e, "APPEND LENS b 0 100 2").unwrap();
    run(&mut e, "COMMIT").unwrap();

    run(&mut e, "USE DATABASE db1").unwrap();
    let Output::Value(Some(Value::Int(v1))) = run(&mut e, "AT LENS a 50").unwrap() else {
        panic!("db1 lens a not written")
    };
    assert_eq!(v1, 1);

    run(&mut e, "USE DATABASE db2").unwrap();
    let Output::Value(Some(Value::Int(v2))) = run(&mut e, "AT LENS b 50").unwrap() else {
        panic!("db2 lens b not written")
    };
    assert_eq!(v2, 2);
}

#[test]
fn ttl_hides_expired_at_queries() {
    let mut e = Session::new();
    run(&mut e, "CREATE DATABASE main").unwrap();
    run(&mut e, "CREATE LENS sensor int").unwrap();
    // timestamp 0 is far in the past relative to any real now-secs value
    run(&mut e, "APPEND LENS sensor 0 10 99").unwrap();
    // TTL of 1 second: cutoff = now - 1, and t=5 < cutoff always
    run(&mut e, "SET TTL LENS sensor 1").unwrap();
    let Output::Value(v) = run(&mut e, "AT LENS sensor 5").unwrap() else {
        panic!()
    };
    assert_eq!(v, None, "data at t=5 should be hidden by TTL");
}

#[test]
fn ttl_hides_expired_range_queries() {
    let mut e = Session::new();
    run(&mut e, "CREATE DATABASE main").unwrap();
    run(&mut e, "CREATE LENS sensor int").unwrap();
    run(&mut e, "APPEND LENS sensor 0 10 99").unwrap();
    run(&mut e, "SET TTL LENS sensor 1").unwrap();
    let Output::Range(segs) = run(&mut e, "RANGE LENS sensor 0 10").unwrap() else {
        panic!()
    };
    assert!(segs.is_empty(), "expired segments should be hidden");
}

#[test]
fn unset_ttl_restores_visibility() {
    let mut e = Session::new();
    run(&mut e, "CREATE DATABASE main").unwrap();
    run(&mut e, "CREATE LENS sensor int").unwrap();
    run(&mut e, "APPEND LENS sensor 0 10 99").unwrap();
    run(&mut e, "SET TTL LENS sensor 1").unwrap();
    // verify hidden
    let Output::Value(hidden) = run(&mut e, "AT LENS sensor 5").unwrap() else {
        panic!()
    };
    assert_eq!(hidden, None);
    // remove TTL
    run(&mut e, "UNSET TTL LENS sensor").unwrap();
    // now visible again
    let Output::Value(visible) = run(&mut e, "AT LENS sensor 5").unwrap() else {
        panic!()
    };
    assert_eq!(visible, Some(Value::Int(99)));
}

#[test]
fn show_status_returns_uptime_and_counts() {
    let mut e = Session::new();
    run(&mut e, "CREATE DATABASE main").unwrap();
    run(&mut e, "CREATE LENS a int").unwrap();
    run(&mut e, "CREATE LENS b float").unwrap();
    let Output::Status(kv) = run(&mut e, "SHOW STATUS").unwrap() else {
        panic!("expected Status output")
    };
    let kv: std::collections::HashMap<_, _> = kv.into_iter().collect();
    assert_eq!(kv["databases"], "1");
    assert_eq!(kv["lenses"], "2");
    assert!(kv["uptime_secs"].parse::<u64>().is_ok());
    assert!(kv["wal_bytes"].parse::<u64>().is_ok());
}

#[test]
fn copy_lens_from_csv() {
    let disk = Disk::default();
    disk.files
        .borrow_mut()
        .insert("data.csv".into(), "0,10,42\n10,20,99\n".into());

    let mut e = setup_on(&disk);
    run(&mut e, "CREATE LENS sensor int").unwrap();
    run(&mut e, "COPY LENS sensor FROM \"data.csv\"").unwrap();
    assert_eq!(
        run(&mut e, "AT LENS sensor 5").unwrap(),
        Output::Value(Some(Value::Int(42)))
    );
    assert_eq!(
        run(&mut e, "AT LENS sensor 15").unwrap(),
        Output::Value(Some(Value::Int(99)))
    );
}

#[test]
fn copy_lens_skips_blank_lines_and_comments() {
    let disk = Disk::default();
    disk.files
        .borrow_mut()
        .insert("data.csv".into(), "# header\n\n0,10,7\n".into());

    let mut e = setup_on(&disk);
    run(&mut e, "CREATE LENS x int").unwrap();
    run(&mut e, "COPY LENS x FROM \"data.csv\"").unwrap();
    assert_eq!(
        run(&mut e, "AT LENS x 5").unwrap(),
        Output::Value(Some(Value::Int(7)))
    );
}

#[test]
fn copy_lens_from_a_missing_file_errors() {
    let mut e = setup();
    run(&mut e, "CREATE LENS x int").unwrap();
    assert_eq!(
        run(&mut e, "COPY LENS x FROM \"nowhere.csv\""),
        Err(ExecError::Io("no such file".into()))
    );
}

#[test]
fn backup_restore_roundtrip_preserves_data() {
    let disk = Disk::default();
    let bak = "x.bak";

    let mut e = setup_on(&disk);
    run(&mut e, "CREATE LENS x int").unwrap();
    run(&mut e, "APPEND LENS x 0 10 42").unwrap();
    run(&mut e, "APPEND LENS x 10 20 99").unwrap();
    run(&mut e, &format!("BACKUP DATABASE main TO \"{bak}\"")).unwrap();

    let mut e2 = Session::on(&disk);
    run(&mut e2, "CREATE DATABASE other").unwrap();
    run(&mut e2, &format!("RESTORE DATABASE main FROM \"{bak}\"")).unwrap();
    run(&mut e2, "USE DATABASE main").unwrap();
    assert_eq!(
        run(&mut e2, "AT LENS x 5").unwrap(),
        Output::Value(Some(Value::Int(42)))
    );
    assert_eq!(
        run(&mut e2, "AT LENS x 15").unwrap(),
        Output::Value(Some(Value::Int(99)))
    );
}

#[test]
fn every_lens_of_a_restored_backup_answers_as_before() {
    let disk = Disk::default();
    let mut e = setup_on(&disk);
    run(&mut e, "CREATE LENS x int").unwrap();
    run(&mut e, "CREATE LENS y float").unwrap();
    for (at, n) in [(0, 3), (4, 1), (8, 7)] {
        run(&mut e, &format!("APPEND LENS x {at} 12 {n}")).unwrap();
        run(&mut e, &format!("APPEND LENS y {at} 12 {n}.5")).unwrap();
    }
    run(&mut e, "DERIVE LENS d AS x * 2 + y").unwrap();
    run(&mut e, "DERIVE LENS s AS sum(x, -5, 5)").unwrap();
    run(&mut e, "XDERIVE LENS v AS x + 1").unwrap();
    run(&mut e, "BACKUP DATABASE main TO \"all.bak\"").unwrap();
    let mut back = Session::on(&disk);
    run(&mut back, "RESTORE DATABASE main FROM \"all.bak\"").unwrap();
    run(&mut back, "USE DATABASE main").unwrap();
    for lens in ["x", "y", "d", "s", "v"] {
        for t in -2..14 {
            let q = format!("AT LENS {lens} {t}");
            assert_eq!(run(&mut back, &q), run(&mut e, &q), "{q}");
        }
        for q in [
            format!("RANGE LENS {lens} 0 12"),
            format!("REDUCE LENS {lens} 0 12 USING min"),
            format!("REDUCE LENS {lens} 0 12 USING count"),
        ] {
            assert_eq!(run(&mut back, &q), run(&mut e, &q), "{q}");
        }
    }
    assert_eq!(
        run(&mut back, "AT LENS d 5").unwrap(),
        Output::Value(Some(Value::Float(3.5f64.to_bits())))
    );
}

#[test]
fn backup_restore_at_matches_original() {
    for seed in 1..=25 {
        let mut tc = Draw(seed);
        let n = tc.within(1, 6);
        let mut segs: Vec<(i64, i64, i64)> = Vec::new();
        let mut cursor: i64 = 0;
        for _ in 0..n {
            let gap = tc.within(1, 1_000);
            let len = tc.within(1, 1_000);
            let val = tc.within(-10_000, 10_000);
            let s = cursor + gap;
            let e = s + len;
            segs.push((s, e, val));
            cursor = e;
        }
        let disk = Disk::default();
        let bak = "prop.bak";
        let mut original = setup_on(&disk);
        run(&mut original, "CREATE LENS x int").unwrap();
        for &(s, end, v) in &segs {
            run(&mut original, &format!("APPEND LENS x {s} {end} {v}")).unwrap();
        }
        run(&mut original, &format!("BACKUP DATABASE main TO \"{bak}\"")).unwrap();
        let mut restored = Session::on(&disk);
        run(&mut restored, "CREATE DATABASE anchor").unwrap();
        run(
            &mut restored,
            &format!("RESTORE DATABASE main FROM \"{bak}\""),
        )
        .unwrap();
        run(&mut restored, "USE DATABASE main").unwrap();
        for &(s, end, _) in &segs {
            let mid = s + (end - s) / 2;
            assert_eq!(
                run(&mut original, &format!("AT LENS x {mid}")).unwrap(),
                run(&mut restored, &format!("AT LENS x {mid}")).unwrap(),
                "backup/restore diverged at t={mid}"
            );
        }
    }
}

#[test]
fn restore_existing_database_name_errors() {
    let disk = Disk::default();
    let bak = "x.bak";

    let mut e = setup_on(&disk);
    run(&mut e, "CREATE LENS x int").unwrap();
    run(&mut e, "APPEND LENS x 0 10 1").unwrap();
    run(&mut e, &format!("BACKUP DATABASE main TO \"{bak}\"")).unwrap();

    let err = run(&mut e, &format!("RESTORE DATABASE main FROM \"{bak}\""));
    assert!(
        matches!(err, Err(ExecError::DuplicateDatabase(_))),
        "expected DuplicateDatabase, got {err:?}"
    );
}

fn logged() -> StorageBackend {
    StorageBackend::Disk {
        dir: "data".into(),
        compression_level: 3,
        enc_key: None,
        wal_fsync_each: false,
        wal_max_bytes: None,
    }
}

/// The log of a database, as the disk keeps it.
fn log_of(e: &Session, name: &str) -> Arc<Vec<Record<Value>>> {
    let db = &e.kernel.db.registry.databases.get(name).unwrap().db;
    Arc::new(db.log.as_ref().unwrap().iter().map(|r| r.dup()).collect())
}

/// A new process that finds the log of the database.
fn reopened(log: Arc<Vec<Record<Value>>>) -> Session {
    let mut e = Session::new();
    e.kernel = Kernel::with_backend(logged(), 4);
    let stmt = Arc::new(parse("CREATE DATABASE main").unwrap().1);
    e.drive(|k, inputs| {
        let mut all = Inputs::new(inputs.now_ms);
        all.logs.insert("main", log.clone());
        k.execute(&stmt, &all)
    })
    .unwrap();
    e
}

#[test]
fn schema_persists_across_wal_restart() {
    // First session: create lens, append data, derive another lens.
    let mut e = reopened(Arc::new(Vec::new()));
    run(&mut e, "CREATE LENS temp int").unwrap();
    run(&mut e, "APPEND LENS temp 0 10 42").unwrap();
    run(&mut e, "DERIVE LENS cold AS (temp * 2)").unwrap();

    // Second session: the log is found, and the schema is recovered from it.
    let mut e2 = reopened(log_of(&e, "main"));
    assert_eq!(
        run(&mut e2, "AT LENS temp 5").unwrap(),
        Output::Value(Some(Value::Int(42)))
    );
    run(&mut e2, "APPEND LENS temp 10 20 99").unwrap();
    assert_eq!(
        run(&mut e2, "AT LENS temp 15").unwrap(),
        Output::Value(Some(Value::Int(99)))
    );
    assert_eq!(
        run(&mut e2, "AT LENS cold 5").unwrap(),
        Output::Value(Some(Value::Int(84)))
    );
}

#[test]
fn ttl_axes_and_drops_persist_across_restart() {
    let mut e = reopened(Arc::new(Vec::new()));
    run(&mut e, "CREATE LENS grid int AXES (valid, height)").unwrap();
    run(&mut e, "APPEND LENS grid [0 100] [0 50] 1").unwrap();
    run(&mut e, "CREATE LENS old int").unwrap();
    run(&mut e, "APPEND LENS old 0 10 1").unwrap();
    run(&mut e, "SET TTL LENS old 1").unwrap();
    run(&mut e, "CREATE LENS gone int").unwrap();
    run(&mut e, "DROP LENS gone").unwrap();

    let mut e2 = reopened(log_of(&e, "main"));
    assert_eq!(
        run(&mut e2, "AT LENS grid 10 25").unwrap(),
        Output::Value(Some(Value::Int(1)))
    );
    assert_eq!(run(&mut e2, "AT LENS old 5").unwrap(), Output::Value(None));
    assert_eq!(
        run(&mut e2, "SHOW LENSES").unwrap(),
        Output::Names(vec!["grid".into(), "old".into()])
    );
}

#[test]
fn a_failed_log_write_leaves_the_lens_unchanged() {
    let mut e = reopened(Arc::new(Vec::new()));
    run(&mut e, "CREATE LENS x int").unwrap();
    e.kernel.db.faults.arm_wal_write_failure(1);
    assert!(matches!(
        run(&mut e, "APPEND LENS x 0 10 1"),
        Err(ExecError::Io(_))
    ));
    assert_eq!(run(&mut e, "AT LENS x 5").unwrap(), Output::Value(None));
    run(&mut e, "APPEND LENS x 0 10 2").unwrap();
    let mut e2 = reopened(log_of(&e, "main"));
    assert_eq!(
        run(&mut e2, "AT LENS x 5").unwrap(),
        Output::Value(Some(Value::Int(2)))
    );
}

#[test]
fn materialised_lens_follows_its_source() {
    let mut e = setup();
    run(&mut e, "CREATE LENS x int").unwrap();
    run(&mut e, "APPEND LENS x 0 10 1").unwrap();
    run(&mut e, "XDERIVE LENS y AS x * 10").unwrap();
    assert_eq!(
        run(&mut e, "AT LENS y 5").unwrap(),
        Output::Value(Some(Value::Int(10)))
    );
    run(&mut e, "APPEND LENS x 5 15 3").unwrap();
    assert_eq!(
        run(&mut e, "RANGE LENS y 0 20").unwrap(),
        Output::Range(vec![(0, 5, Value::Int(10)), (5, 15, Value::Int(30))])
    );
    assert_eq!(
        run(&mut e, "APPEND LENS y 0 1 1"),
        Err(ExecError::MaterialisedLens("y".into()))
    );
}

#[test]
fn exec_read_refuses_a_change() {
    let mut e = setup();
    let (_, stmt) = parse("CREATE LENS x int").unwrap();
    assert_eq!(
        e.exec_read(&stmt),
        Err(ExecError::InvalidExpr(
            "exec_read called on a mutating statement".into()
        ))
    );
}

#[test]
fn wrong_number_of_axes_errors() {
    let mut e = setup();
    run(&mut e, "CREATE LENS grid int AXES (valid, height)").unwrap();
    assert!(matches!(
        run(&mut e, "APPEND LENS grid 0 10 1"),
        Err(ExecError::InvalidExpr(_))
    ));
    assert!(matches!(
        run(&mut e, "AT LENS grid 1 2 3"),
        Err(ExecError::InvalidExpr(_))
    ));
}

#[test]
fn grants_are_shown_by_user() {
    let mut e = setup();
    install_admin(&mut e);
    install_reader(&mut e, "main");
    assert_eq!(
        run(&mut e, "SHOW GRANTS reader").unwrap(),
        Output::Grants(vec![("reader".into(), vec![("main".into(), Perm::r())])])
    );
    assert_eq!(
        run(&mut e, "SHOW GRANTS nobody"),
        Err(ExecError::UnknownUser("nobody".into()))
    );
    assert_eq!(
        run(&mut e, "CREATE USER reader PASSWORD \"q\""),
        Err(ExecError::DuplicateUser("reader".into()))
    );
    assert_eq!(
        run(&mut e, "SHOW USERS").unwrap(),
        Output::Names(vec!["admin".into(), "reader".into()])
    );
}

#[test]
fn derivations_and_materialised_lenses_persist_across_restart() {
    let mut e = reopened(Arc::new(Vec::new()));
    for q in [
        "CREATE LENS a int",
        "APPEND LENS a 0 10 5",
        "DERIVE LENS d AS ((a * -2) + (a % 3)) OVER 0 8",
        "XDERIVE LENS m AS (a >= 5)",
        "SET TTL LENS a 9223372036854775807",
        "UNSET TTL LENS a",
    ] {
        run(&mut e, q).unwrap();
    }
    let mut e2 = reopened(log_of(&e, "main"));
    for q in [
        "AT LENS d 3",
        "AT LENS d 9",
        "AT LENS m 3",
        "SHOW LENSES",
        "RANGE LENS d 0 10",
    ] {
        assert_eq!(run(&mut e, q).unwrap(), run(&mut e2, q).unwrap(), "{q}");
    }
    // A materialised lens goes on following what it reads.
    run(&mut e2, "APPEND LENS a 20 30 1").unwrap();
    assert_eq!(
        run(&mut e2, "AT LENS m 25").unwrap(),
        Output::Value(Some(Value::Bool(false)))
    );
}

#[test]
fn ranges_show_what_lookups_say() {
    let mut e = setup();
    for q in [
        "CREATE LENS a int",
        "APPEND LENS a 0 10 1, 10 20 2",
        "APPEND LENS a 5 15 3",
        "CREATE LENS b int",
        "APPEND LENS b 3 12 10",
        "DERIVE LENS s AS (a + b)",
        "DERIVE LENS t AS (s > 12)",
        "XDERIVE LENS m AS (a + b) OVER 0 25",
    ] {
        run(&mut e, q).unwrap();
    }
    for lens in ["a", "b", "s", "t", "m"] {
        let Output::Range(segs) = run(&mut e, &format!("RANGE LENS {lens} -5 25")).unwrap() else {
            panic!("expected a range");
        };
        for t in -5..25 {
            let shown = segs
                .iter()
                .find(|(lo, hi, _)| *lo <= t && t < *hi)
                .map(|(_, _, v)| v.clone());
            assert_eq!(
                run(&mut e, &format!("AT LENS {lens} {t}")).unwrap(),
                Output::Value(shown),
                "{lens} at {t}"
            );
        }
    }
}

#[test]
fn a_dropped_lens_leaves_nothing_behind() {
    for mut e in [setup(), reopened(Arc::new(Vec::new()))] {
        run(&mut e, "CREATE LENS x int").unwrap();
        run(&mut e, "SET TTL LENS x 1").unwrap();
        run(&mut e, "DROP LENS x").unwrap();
        run(&mut e, "CREATE LENS x int").unwrap();
        run(&mut e, "APPEND LENS x 0 10 99").unwrap();
        assert_eq!(
            run(&mut e, "AT LENS x 5").unwrap(),
            Output::Value(Some(Value::Int(99)))
        );
    }
}

#[test]
fn a_failed_log_write_leaves_nothing_half_applied() {
    let queries = [
        "CREATE LENS z int",
        "SET TTL LENS x 1",
        "UNSET TTL LENS x",
        "DROP LENS x",
        "DERIVE LENS d AS x + 1",
        "XDERIVE LENS v AS x + 2",
        "APPEND LENS x 3 7 5",
    ];
    let looks = [
        "AT LENS x 5",
        "AT LENS y 5",
        "RANGE LENS x 0 20",
        "RANGE LENS y 0 20",
        "HISTORY LENS x",
        "HISTORY LENS y",
        "SHOW LENSES",
    ];
    for query in queries {
        for nth in 1..=3 {
            let mut e = reopened(Arc::new(Vec::new()));
            run(&mut e, "CREATE LENS x int").unwrap();
            run(&mut e, "APPEND LENS x 0 10 1").unwrap();
            run(&mut e, "XDERIVE LENS y AS x * 10").unwrap();
            let before: Vec<_> = looks.iter().map(|q| run(&mut e, q)).collect();
            let log = log_of(&e, "main").len();
            e.kernel.db.faults.arm_wal_write_failure(nth);
            let result = run(&mut e, query);
            if e.kernel.db.faults.is_armed() {
                assert!(result.is_ok());
                continue;
            }
            assert!(matches!(result, Err(ExecError::Io(_))), "{query}");
            let after: Vec<_> = looks.iter().map(|q| run(&mut e, q)).collect();
            assert_eq!(before, after, "{query} with write {nth} failing");
            assert_eq!(log_of(&e, "main").len(), log);
            run(&mut e, query).unwrap();
        }
    }
}

#[test]
fn a_commit_that_fails_changes_no_database() {
    let mut e = setup();
    run(&mut e, "CREATE LENS x int").unwrap();
    run(&mut e, "START TRANSACTION").unwrap();
    run(&mut e, "APPEND LENS x 0 10 1").unwrap();
    run(&mut e, "APPEND LENS missing 0 10 1").unwrap();
    assert_eq!(
        run(&mut e, "COMMIT"),
        Err(ExecError::UnknownLens("missing".into()))
    );
    assert_eq!(run(&mut e, "AT LENS x 5").unwrap(), Output::Value(None));
    assert_eq!(run(&mut e, "COMMIT"), Err(ExecError::NoActiveTransaction));
}

#[test]
fn a_window_cuts_a_derived_lens() {
    let mut e = setup();
    run(&mut e, "CREATE LENS c int").unwrap();
    run(&mut e, "APPEND LENS c 0 10 1").unwrap();
    run(&mut e, "DERIVE LENS d AS c OVER 3 7").unwrap();
    assert_eq!(
        run(&mut e, "AT LENS d 5").unwrap(),
        Output::Value(Some(Value::Int(1)))
    );
    assert_eq!(
        run(&mut e, "RANGE LENS d 0 10").unwrap(),
        Output::Range(vec![(3, 7, Value::Int(1))])
    );
    run(&mut e, "DERIVE LENS f AS d + 1").unwrap();
    assert_eq!(
        run(&mut e, "RANGE LENS f 0 10").unwrap(),
        Output::Range(vec![(3, 7, Value::Int(2))])
    );
    assert_eq!(
        run(&mut e, "REDUCE LENS d 0 10 USING count").unwrap(),
        Output::Value(Some(Value::Int(1)))
    );
}

#[test]
fn a_time_to_live_cuts_what_reads_the_lens() {
    let mut e = setup();
    e.kernel.clock.set_fixed_now_ms(1_000_000);
    run(&mut e, "CREATE LENS c int").unwrap();
    run(&mut e, "APPEND LENS c 0 2000 1").unwrap();
    run(&mut e, "DERIVE LENS d AS c + 1").unwrap();
    run(&mut e, "SET TTL LENS c 100").unwrap();
    assert_eq!(run(&mut e, "AT LENS d 899").unwrap(), Output::Value(None));
    assert_eq!(
        run(&mut e, "RANGE LENS d 0 2000").unwrap(),
        Output::Range(vec![(900, 2000, Value::Int(2))])
    );
}

#[test]
fn views_are_computed_after_what_they_read() {
    let mut e = setup();
    run(&mut e, "CREATE LENS x int").unwrap();
    run(&mut e, "APPEND LENS x 0 10 1").unwrap();
    run(&mut e, "XDERIVE LENS b AS x * 2").unwrap();
    run(&mut e, "XDERIVE LENS a AS x + b").unwrap();
    run(&mut e, "XDERIVE LENS aa AS a + b").unwrap();
    run(&mut e, "APPEND LENS x 0 10 5").unwrap();
    for (lens, value) in [("b", 10), ("a", 15), ("aa", 25)] {
        assert_eq!(
            run(&mut e, &format!("AT LENS {lens} 5")).unwrap(),
            Output::Value(Some(Value::Int(value)))
        );
    }
}

#[test]
fn a_restored_database_has_axes_and_times_to_live() {
    let disk = Disk::default();
    let mut e = setup_on(&disk);
    e.kernel.clock.set_fixed_now_ms(1_000_000);
    run(&mut e, "CREATE LENS grid int AXES (valid, height)").unwrap();
    run(&mut e, "APPEND LENS grid [0 100] [0 50] 7").unwrap();
    run(&mut e, "CREATE LENS x int").unwrap();
    run(&mut e, "APPEND LENS x 0 2000 1").unwrap();
    run(&mut e, "SET TTL LENS x 100").unwrap();
    run(&mut e, "DERIVE LENS d AS x * 2 OVER 0 1000").unwrap();
    run(&mut e, "XDERIVE LENS v AS x + 1").unwrap();
    run(&mut e, "BACKUP DATABASE main TO \"full.bak\"").unwrap();
    let mut back = Session::on(&disk);
    back.kernel.clock.set_fixed_now_ms(1_000_000);
    run(&mut back, "CREATE DATABASE other").unwrap();
    run(&mut back, "RESTORE DATABASE main FROM \"full.bak\"").unwrap();
    run(&mut back, "USE DATABASE main").unwrap();
    for q in [
        "AT LENS grid 10 25",
        "AT LENS grid 10 60",
        "RANGE LENS grid 0 200 AT (25)",
        "AT LENS x 5",
        "AT LENS x 950",
        "RANGE LENS x 0 3000",
        "RANGE LENS d 0 3000",
        "RANGE LENS v 0 3000",
        "AT LENS grid 1",
        "SHOW LENSES",
    ] {
        assert_eq!(run(&mut back, q), run(&mut e, q), "{q}");
    }
    assert_eq!(
        run(&mut back, "AT LENS grid 10 25").unwrap(),
        Output::Value(Some(Value::Int(7)))
    );
    run(&mut back, "APPEND LENS x 950 960 4").unwrap();
    assert_eq!(
        run(&mut back, "AT LENS v 955").unwrap(),
        Output::Value(Some(Value::Int(5)))
    );
}

#[test]
fn definitions_do_not_lead_back_to_themselves() {
    let mut e = setup();
    run(&mut e, "XDERIVE LENS a AS b").unwrap();
    assert_eq!(
        run(&mut e, "XDERIVE LENS b AS a"),
        Err(ExecError::CycleDetected("b".into()))
    );
    run(&mut e, "XDERIVE LENS c AS d + 1").unwrap();
    assert_eq!(
        run(&mut e, "DERIVE LENS d AS c"),
        Err(ExecError::CycleDetected("d".into()))
    );
    assert_eq!(
        run(&mut e, "XDERIVE LENS s AS s"),
        Err(ExecError::CycleDetected("s".into()))
    );
}

#[test]
fn a_view_follows_what_its_expression_reads_now() {
    let mut e = setup();
    run(&mut e, "CREATE LENS x int").unwrap();
    run(&mut e, "CREATE LENS y int").unwrap();
    run(&mut e, "APPEND LENS x 0 10 1").unwrap();
    run(&mut e, "APPEND LENS y 0 10 2").unwrap();
    run(&mut e, "DERIVE LENS d AS x").unwrap();
    run(&mut e, "XDERIVE LENS v AS d * 10").unwrap();
    run(&mut e, "DROP LENS d").unwrap();
    run(&mut e, "DERIVE LENS d AS y").unwrap();
    run(&mut e, "APPEND LENS y 0 10 3").unwrap();
    assert_eq!(
        run(&mut e, "AT LENS v 5").unwrap(),
        Output::Value(Some(Value::Int(30)))
    );
}

#[test]
fn an_append_stays_where_a_view_cannot_be_computed() {
    let mut e = setup();
    run(&mut e, "CREATE LENS x int").unwrap();
    run(&mut e, "APPEND LENS x 0 10 1").unwrap();
    run(&mut e, "XDERIVE LENS v AS 10 / x").unwrap();
    assert!(matches!(
        run(&mut e, "APPEND LENS x 0 10 0"),
        Err(ExecError::InvalidExpr(_))
    ));
    assert_eq!(
        run(&mut e, "AT LENS x 5").unwrap(),
        Output::Value(Some(Value::Int(0)))
    );
    assert_eq!(
        run(&mut e, "AT LENS v 5").unwrap(),
        Output::Value(Some(Value::Int(10)))
    );
}

#[test]
fn merges_and_log_writes_are_counted() {
    let mut e = reopened(Arc::new(Vec::new()));
    e.kernel.clock.set_fixed_now_ms(1_000);
    run(&mut e, "CREATE LENS x int").unwrap();
    assert_eq!(e.kernel.metrics.wal_write_latency.count, 0);
    for i in 0..4 {
        run(&mut e, &format!("APPEND LENS x {i} 10 {i}")).unwrap();
    }
    assert_eq!(e.kernel.metrics.wal_write_latency.count, 4);
    assert_eq!(e.kernel.metrics.compactions, 0);
    run(&mut e, "APPEND LENS x 4 10 4").unwrap();
    assert_eq!(e.kernel.metrics.compactions, 1);
    run(&mut e, "APPEND LENS x 5 10 5").unwrap();
    assert_eq!(e.kernel.metrics.compactions, 1);
    assert_eq!(e.kernel.metrics.wal_write_latency.count, 6);
    e.kernel.db.faults.arm_wal_write_failure(1);
    assert!(run(&mut e, "APPEND LENS x 6 10 6").is_err());
    assert_eq!(e.kernel.metrics.wal_write_latency.count, 6);
    let mut memory = setup();
    run(&mut memory, "CREATE LENS x int").unwrap();
    run(&mut memory, "APPEND LENS x 0 10 1").unwrap();
    assert_eq!(memory.kernel.metrics.wal_write_latency.count, 0);
}

#[test]
fn a_commit_answers_as_direct_writes_do() {
    let writes = ["APPEND LENS x 0 10 1", "APPEND LENS x 5 15 2"];
    let mut direct = setup();
    let mut queued = setup();
    for e in [&mut direct, &mut queued] {
        run(e, "CREATE LENS x int").unwrap();
    }
    run(&mut queued, "START TRANSACTION").unwrap();
    for q in writes {
        run(&mut direct, q).unwrap();
        run(&mut queued, q).unwrap();
    }
    run(&mut queued, "COMMIT").unwrap();
    for q in ["AT LENS x 7", "RANGE LENS x 0 20"] {
        assert_eq!(run(&mut direct, q), run(&mut queued, q));
    }
    assert!(matches!(
        run(&mut queued, "COMMIT"),
        Err(ExecError::NoActiveTransaction)
    ));
    run(&mut queued, "START TRANSACTION").unwrap();
    run(&mut queued, "APPEND LENS missing 0 10 1").unwrap();
    assert_eq!(
        run(&mut queued, "COMMIT"),
        run(&mut direct, "APPEND LENS missing 0 10 1")
    );
}

#[test]
fn compaction_keeps_the_least_and_the_greatest() {
    let filled = |threshold: usize| -> Vec<Output> {
        let mut e = Session::new();
        e.kernel = Kernel::with_threshold(threshold);
        e.kernel.clock.set_fixed_now_ms(1_000);
        run(&mut e, "CREATE DATABASE main").unwrap();
        run(&mut e, "CREATE LENS x int").unwrap();
        run(&mut e, "CREATE LENS f float").unwrap();
        for i in 0..9i64 {
            let (at, to) = (i, i + 5);
            run(&mut e, &format!("APPEND LENS x {at} {to} {}", i * 5 % 8)).unwrap();
            run(&mut e, &format!("APPEND LENS f {at} {to} {}.5", i * 3 % 8)).unwrap();
        }
        assert_eq!(e.kernel.metrics.compactions > 0, threshold > 0);
        let mut out = Vec::new();
        for lens in ["x", "f"] {
            for func in ["min", "max"] {
                out.push(run(&mut e, &format!("REDUCE LENS {lens} 0 100 USING {func}")).unwrap());
            }
        }
        out
    };
    let plain = filled(0);
    assert_eq!(filled(2), plain);
    assert_eq!(plain[0], Output::Value(Some(Value::Int(0))));
    assert_eq!(plain[1], Output::Value(Some(Value::Int(7))));
    assert_eq!(plain[2], Output::Value(Some(Value::Float(0.5f64.to_bits()))));
    assert_eq!(plain[3], Output::Value(Some(Value::Float(7.5f64.to_bits()))));
}

#[test]
fn a_time_to_live_hides_wherever_the_lens_is_read() {
    let mut e = setup();
    e.kernel.clock.set_fixed_now_ms(1_000_000);
    run(&mut e, "CREATE LENS x int").unwrap();
    run(&mut e, "APPEND LENS x 0 800 5").unwrap();
    run(&mut e, "APPEND LENS x 950 960 7").unwrap();
    run(&mut e, "DERIVE LENS s AS max(x, -1000, 1000)").unwrap();
    run(&mut e, "DERIVE LENS d AS x + 1").unwrap();
    run(&mut e, "DERIVE LENS f AS d + 1").unwrap();
    run(&mut e, "SET TTL LENS x 100").unwrap();
    assert_eq!(
        run(&mut e, "AT LENS s 500").unwrap(),
        Output::Value(Some(Value::Int(7)))
    );
    assert_eq!(run(&mut e, "AT LENS s -200").unwrap(), Output::Value(None));
    run(&mut e, "UNSET TTL LENS x").unwrap();
    run(&mut e, "SET TTL LENS d 45").unwrap();
    assert_eq!(run(&mut e, "AT LENS f 952").unwrap(), Output::Value(None));
    assert_eq!(
        run(&mut e, "RANGE LENS f 0 1000").unwrap(),
        Output::Range(vec![(955, 960, Value::Int(9))])
    );
}

#[test]
fn a_function_that_cannot_be_logged_is_not_registered() {
    let mut e = reopened(Arc::new(Vec::new()));
    e.kernel.db.faults.arm_wal_write_failure(1);
    let create = "CREATE FUNCTION f CAPS log AS \"return 1\"";
    assert!(matches!(run(&mut e, create), Err(ExecError::Io(_))));
    assert_eq!(
        run(&mut e, "SHOW FUNCTIONS").unwrap(),
        Output::Names(vec![])
    );
    run(&mut e, create).unwrap();
    e.kernel.db.faults.arm_wal_write_failure(1);
    assert!(matches!(
        run(&mut e, "DROP FUNCTION f"),
        Err(ExecError::Io(_))
    ));
    assert_eq!(
        run(&mut e, "SHOW FUNCTIONS").unwrap(),
        Output::Names(vec!["f".into()])
    );
    run(&mut e, "DROP FUNCTION f").unwrap();
    assert_eq!(
        run(&mut e, "SHOW FUNCTIONS").unwrap(),
        Output::Names(vec![])
    );
}
