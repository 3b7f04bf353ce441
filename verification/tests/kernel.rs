//! The kernel: handles, routing, functions and their triggers.

use libtau::ast::{Cap, Stmt, TriggerKind};
use libtau::auth::{AuthEvent, SyscallError};
use libtau::error::ExecError;
use libtau::functions::{judge, FunctionTable, HookReturn, PermissionVerdict};
use libtau::handle::{RawHandle, Slot};
use libtau::hostcall::{host_call, HostCall, HostStep};
use libtau::inputs::Inputs;
use libtau::kernel::{Action, Kernel};
use libtau::metrics::{MetricEvent, Op};
use libtau::names::NameMap;
use libtau::output::Output;
use libtau::parser::parse;
use libtau::perm::Perm;
use libtau::value::Value;
use std::sync::Arc;

fn stmt(q: &str) -> Arc<Stmt> {
    let (rest, s) = parse(q).expect("parse");
    assert!(rest.is_empty());
    Arc::new(s)
}

fn step(k: &mut Kernel, q: &str) -> Result<Action, ExecError> {
    let s = stmt(q);
    let mut inputs = Inputs::new(k.clock.now_ms());
    loop {
        match k.execute(&s, &inputs) {
            Err(ExecError::PendingCode(source)) => {
                let ok = if source.contains("syntax error") {
                    Err("unexpected symbol".to_string())
                } else {
                    Ok(())
                };
                inputs.compiled.insert(&source, ok);
            }
            other => return other,
        }
    }
}

fn exec(k: &mut Kernel, q: &str) -> Output {
    match step(k, q).expect(q) {
        Action::Done(out) => out,
        other => panic!("left to do: {other:?}"),
    }
}

fn caps(run: bool) -> Cap {
    Cap {
        run,
        at: false,
        range: false,
        log: !run,
        metric: false,
        clock: false,
    }
}

#[test]
fn subsystem_registration_creates_handle() {
    let mut k = Kernel::new();
    let counter = k.allocate().unwrap();
    assert!(counter.index > 0 || counter.generation == 0);
    assert_eq!(k.service_handles.len(), 4);
    assert!(!k.service_handles.contains(&counter));
}

#[test]
fn invalid_handle_returns_error() {
    let mut k = Kernel::new();
    let fake_handle = RawHandle {
        index: 999,
        generation: 0,
    };
    assert_eq!(
        k.external_handler(fake_handle),
        Err(SyscallError::InvalidHandle)
    );
    assert_eq!(k.deallocate(fake_handle), Err(SyscallError::InvalidHandle));
    let service = k.service_handles[0];
    assert_eq!(k.external_handler(service), Err(SyscallError::NotSupported));
    let file = k.register_external().unwrap();
    assert_eq!(k.external_handler(file), Ok(()));
    assert_eq!(k.slab.get(file), Some(Slot::External));
    k.deallocate(file).unwrap();
    assert_eq!(k.external_handler(file), Err(SyscallError::InvalidHandle));
}

#[test]
fn logical_time_advances() {
    let mut k = Kernel::new();
    assert_eq!(k.now(), 0);

    k.advance_to(100);
    assert_eq!(k.now(), 100);

    k.advance_to(250);
    assert_eq!(k.now(), 250);
}

#[test]
fn kernel_routes_statements_between_services() {
    let mut k = Kernel::new();
    for q in [
        "CREATE DATABASE main",
        "CREATE LENS temp int",
        "APPEND LENS temp 0 10 42",
    ] {
        exec(&mut k, q);
    }
    assert_eq!(
        exec(&mut k, "AT LENS temp 5"),
        Output::Value(Some(Value::Int(42)))
    );
}

#[test]
fn has_and_source_track_registered_functions() {
    let mut k = Kernel::new();
    exec(&mut k, "CREATE DATABASE test");
    exec(&mut k, "CREATE FUNCTION temp CAPS log AS \"return 1\"");
    assert!(matches!(
        step(&mut k, "CALL FUNCTION temp()"),
        Ok(Action::Call { place: 0 })
    ));
    assert_eq!(k.functions.at(0).unwrap().source, "return 1");
    exec(&mut k, "DROP FUNCTION temp");
    let err = step(&mut k, "CALL FUNCTION temp()").unwrap_err();
    assert!(matches!(err, ExecError::InvalidExpr(_)));
}

#[test]
fn drop_function_removes_it() {
    let mut k = Kernel::new();
    exec(&mut k, "CREATE DATABASE test");
    exec(&mut k, "CREATE FUNCTION temp CAPS log AS \"\"");
    exec(&mut k, "DROP FUNCTION temp");
    assert_eq!(
        step(&mut k, "CALL FUNCTION temp()").unwrap_err(),
        ExecError::InvalidExpr("unknown function: temp".into())
    );
    assert_eq!(
        step(&mut k, "DROP FUNCTION temp").unwrap_err(),
        ExecError::InvalidExpr("unknown function: temp".into())
    );
}

#[test]
fn show_functions_lists_names() {
    let mut k = Kernel::new();
    exec(&mut k, "CREATE DATABASE test");
    exec(&mut k, "CREATE FUNCTION fn1 CAPS log AS \"\"");
    exec(&mut k, "CREATE FUNCTION fn2 CAPS log AS \"\"");
    match exec(&mut k, "SHOW FUNCTIONS") {
        Output::Names(names) => {
            assert!(names.contains(&"fn1".to_string()));
            assert!(names.contains(&"fn2".to_string()));
        }
        out => panic!("expected Names, got {out:?}"),
    }
}

#[test]
fn a_source_that_does_not_compile_is_refused() {
    let mut k = Kernel::new();
    exec(&mut k, "CREATE DATABASE test");
    assert_eq!(
        step(&mut k, "CREATE FUNCTION bad CAPS log AS \"syntax error\"").unwrap_err(),
        ExecError::Io("lua compile: unexpected symbol".into())
    );
    assert_eq!(exec(&mut k, "SHOW FUNCTIONS"), Output::Names(vec![]));
    exec(&mut k, "CREATE FUNCTION good CAPS log AS \"return 1\"");
    assert!(step(&mut k, "CREATE FUNCTION good CAPS log AS \"syntax error\"").is_err());
    assert_eq!(exec(&mut k, "SHOW FUNCTIONS"), Output::Names(vec![]));
}

#[test]
fn on_write_trigger_fires_after_append() {
    let mut k = Kernel::new();
    exec(&mut k, "CREATE DATABASE test");
    exec(&mut k, "CREATE LENS src int");
    exec(&mut k, "CREATE LENS out int");
    exec(
        &mut k,
        "CREATE FUNCTION echo ON WRITE LENS src CAPS exec AS \"tau.exec('APPEND LENS out 0 1 1')\"",
    );

    // An append to another lens sets nothing off.
    exec(&mut k, "APPEND LENS out 5 6 1");
    match step(&mut k, "APPEND LENS src 0 10 42").unwrap() {
        Action::Trigger { lens, rows, places } => {
            assert_eq!(lens, "src");
            assert_eq!(rows, vec![(0, 10, Value::Int(42))]);
            assert_eq!(places, vec![0]);
        }
        other => panic!("expected a trigger, got {other:?}"),
    }
    k.enter_trigger();
    exec(&mut k, "APPEND LENS out 0 1 1");
    k.leave_trigger();
    assert_eq!(exec(&mut k, "AT LENS out 0"), Output::Value(Some(Value::Int(1))));
    assert_eq!(exec(&mut k, "AT LENS src 5"), Output::Value(Some(Value::Int(42))));
}

#[test]
fn reentrancy_guard_prevents_nested_triggers() {
    let mut k = Kernel::new();
    exec(&mut k, "CREATE DATABASE test");
    exec(&mut k, "CREATE LENS a int");
    // A trigger that appends to the same lens does not set itself off.
    exec(
        &mut k,
        "CREATE FUNCTION loop ON WRITE LENS a CAPS exec AS \"tau.exec('APPEND LENS a 0 1 1')\"",
    );
    assert!(matches!(
        step(&mut k, "APPEND LENS a 0 10 99"),
        Ok(Action::Trigger { .. })
    ));
    k.enter_trigger();
    assert_eq!(exec(&mut k, "APPEND LENS a 0 1 1"), Output::Empty);
    k.leave_trigger();
    // Newest layer wins: the trigger's append is newer.
    assert_eq!(exec(&mut k, "AT LENS a 0"), Output::Value(Some(Value::Int(1))));
    assert!(matches!(
        step(&mut k, "APPEND LENS a 20 30 1"),
        Ok(Action::Trigger { .. })
    ));
}

#[test]
fn scheduled_function_fires_on_tick_cron() {
    let mut k = Kernel::new();
    k.clock.set_fixed_now_ms(1_000_000);
    exec(&mut k, "CREATE DATABASE test");
    // every 1 second
    exec(
        &mut k,
        "CREATE FUNCTION counter SCHEDULE EVERY 1 CAPS exec AS \"tau.exec('APPEND LENS tick 0 1 1')\"",
    );
    let tick = |k: &mut Kernel| {
        let now = k.clock.now_ms();
        let due = k.functions.due(now);
        for &i in &due {
            k.functions.after_run(i, now);
        }
        due.len()
    };
    // Not due yet: the first run is a second away.
    assert_eq!(tick(&mut k), 0);
    k.clock.set_fixed_now_ms(1_001_000);
    assert_eq!(tick(&mut k), 1);
    // Not due again until another second passes.
    assert_eq!(tick(&mut k), 0);
    k.clock.set_fixed_now_ms(1_002_000);
    assert_eq!(tick(&mut k), 1);
}

#[test]
fn registry_source_preserved() {
    let mut reg = FunctionTable::new();
    reg.register("f", TriggerKind::OnDemand, caps(false), "return 7", 0, Ok(()))
        .unwrap();
    assert!(reg.has("f"));
    assert_eq!(reg.source("f"), Some("return 7"));
    assert!(!reg.has("missing"));
    assert_eq!(reg.source("missing"), None);
}

#[test]
fn hooks_can_refuse() {
    assert_eq!(judge(&vec![]), PermissionVerdict::Allow);
    assert_eq!(
        judge(&vec![HookReturn::Nothing, HookReturn::Bool(false)]),
        PermissionVerdict::Deny("denied by permission hook".into())
    );
    let mut k = Kernel::new();
    exec(&mut k, "CREATE DATABASE main");
    let mut grants = NameMap::new();
    grants.insert("*", Perm::all());
    k.auth.create_user("admin", "p", grants).unwrap();
    let inputs = Inputs::new(0);
    let create = stmt("CREATE LENS x int");
    assert_eq!(
        k.exec_as(&create, "admin", &vec![HookReturn::Bool(false)], &inputs)
            .unwrap_err(),
        ExecError::PermissionDenied("denied by permission hook".into())
    );
    assert_eq!(exec(&mut k, "SHOW LENSES"), Output::Names(vec![]));
    k.exec_as(&create, "admin", &vec![], &inputs).unwrap();
    assert_eq!(exec(&mut k, "SHOW LENSES"), Output::Names(vec!["x".into()]));
}

#[test]
fn a_function_may_only_do_what_its_capabilities_allow() {
    let run = || HostCall::Run("APPEND LENS x 0 1 1".into());
    assert!(matches!(host_call(caps(false), run(), None, 0), HostStep::Absent));
    match host_call(caps(true), run(), None, 0) {
        HostStep::Execute(Stmt::Append { name, .. }) => assert_eq!(name, "x"),
        other => panic!("{other:?}"),
    }
    assert!(matches!(
        host_call(caps(true), HostCall::Run("NONSENSE".into()), None, 0),
        HostStep::Fail(_)
    ));
    match host_call(caps(false), HostCall::Log("hello".into()), None, 0) {
        HostStep::Log(text) => assert_eq!(text, "hello"),
        other => panic!("{other:?}"),
    }
    let all = Cap {
        run: true,
        at: true,
        range: true,
        log: true,
        metric: true,
        clock: true,
    };
    assert!(matches!(
        host_call(all, HostCall::Clock, None, 1_500),
        HostStep::Number(n) if n == 1_500
    ));
    assert!(matches!(
        host_call(all, HostCall::LastWriteSpan, Some((3, 9)), 0),
        HostStep::Pair(Some((3, 9)))
    ));
    assert!(matches!(
        host_call(all, HostCall::LastWriteSpan, None, 0),
        HostStep::Pair(None)
    ));
    assert!(matches!(host_call(all, HostCall::Metric, None, 0), HostStep::Nothing));
}

#[test]
fn statements_and_events_are_counted() {
    let mut k = Kernel::new();
    exec(&mut k, "CREATE DATABASE main");
    k.count(&stmt("AT LENS x 5"), 7_000);
    assert_eq!(k.metrics.ops[Op::At.index()].ns, 7_000);
    assert_eq!(k.metrics.per_db.get("main").unwrap()[Op::At.index()], 1);
    k.metric_record(MetricEvent::Error);
    assert_eq!(k.metrics.errors, 1);
}

#[test]
fn every_routed_statement_is_counted() {
    let mut k = Kernel::new();
    let inputs = Inputs::new(0);
    let create = stmt("CREATE LENS x int");
    assert!(matches!(
        k.exec_stmt(&create, &inputs),
        Err(ExecError::NoActiveDatabase)
    ));
    assert_eq!(k.metrics.ops[Op::CreateLens.index()].count, 1);
    exec(&mut k, "CREATE DATABASE main");
    assert!(k.exec_stmt(&create, &inputs).is_ok());
    assert!(k.exec_stmt(&create, &inputs).is_err());
    assert_eq!(k.metrics.ops[Op::CreateLens.index()].count, 3);
    assert_eq!(
        k.metrics.per_db.get("main").unwrap()[Op::CreateLens.index()],
        2
    );
    let copy = stmt("COPY LENS x FROM \"rows.csv\"");
    assert!(matches!(
        k.exec_stmt(&copy, &inputs),
        Err(ExecError::PendingFile(_))
    ));
    assert_eq!(k.metrics.ops[Op::Copy.index()].count, 0);
    assert!(k
        .exec_stmt_as(&create, "nobody", &Vec::new(), &inputs)
        .is_err());
    assert_eq!(k.metrics.ops[Op::CreateLens.index()].count, 3);
}

#[test]
fn authentication_goes_through_the_kernel() {
    let mut k = Kernel::new();
    k.authorize(AuthEvent::CreateUser {
        name: "bob".into(),
        password: "pw".into(),
        grants: NameMap::new(),
    })
    .unwrap();
    assert_eq!(k.auth.authenticate("bob", "pw"), Some(true));
    assert!(matches!(
        k.authorize(AuthEvent::RemoveUser { name: "eve".into() }),
        Err(SyscallError::InternalError(_))
    ));
}
