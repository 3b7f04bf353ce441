//! What a running function may ask of its host.
//!
//! A function sees only the calls that its capabilities grant. Each call it makes is turned
//! into a statement to execute, or answered at once.

use crate::ast::{AggFunc, Cap, Stmt};
use crate::clock::{clamp, sub_clamped};
use crate::parser::{format_parse_error, parse, parse_error_text, statement, stopped};
use crate::text::{owned, same_text};
use vstd::prelude::*;

verus! {

/// A call that a function makes.
#[derive(Debug)]
pub enum HostCall {
    /// Execute a statement.
    Run(String),
    At { lens: String, t: i64 },
    Range { lens: String, start: i64, end: i64 },
    Reduce { lens: String, start: i64, end: i64, func: String },
    Log(String),
    Metric,
    Clock,
    /// The window of the given length that ends now.
    ClockWindow(i64),
    /// The window of the write that set the function off.
    LastWriteSpan,
}

/// What becomes of a call.
#[derive(Debug)]
pub enum HostStep {
    /// The function does not have such a call.
    Absent,
    /// The call fails with a message.
    Fail(String),
    /// A statement is to be executed; its answer is the call's.
    Execute(Stmt),
    /// The message is to be logged.
    Log(String),
    /// Nothing happens.
    Nothing,
    Number(i64),
    /// Two numbers, or nothing twice.
    Pair(Option<(i64, i64)>),
}

/// The capability that a call needs.
pub open spec fn may_call(caps: Cap, call: HostCall) -> bool {
    match call {
        HostCall::Run(_) => caps.run,
        HostCall::At { .. } => caps.at,
        HostCall::Range { .. } => caps.range,
        HostCall::Reduce { .. } => caps.range,
        HostCall::Log(_) => caps.log,
        HostCall::Metric => caps.metric,
        HostCall::Clock => caps.clock,
        HostCall::ClockWindow(_) => caps.clock,
        HostCall::LastWriteSpan => caps.clock,
    }
}

/// The aggregate with a name.
pub open spec fn agg_named(name: Seq<char>) -> Option<AggFunc> {
    if name == "min"@ {
        Some(AggFunc::Min)
    } else if name == "max"@ {
        Some(AggFunc::Max)
    } else if name == "avg"@ {
        Some(AggFunc::Avg)
    } else if name == "sum"@ {
        Some(AggFunc::Sum)
    } else if name == "count"@ {
        Some(AggFunc::Count)
    } else {
        None
    }
}

/// What becomes of a call.
pub open spec fn host_step(
    caps: Cap,
    call: HostCall,
    span: Option<(i64, i64)>,
    now_ms: i64,
    r: HostStep,
) -> bool {
    if !may_call(caps, call) {
        r is Absent
    } else {
        match call {
            HostCall::Run(text) => match statement(text@) {
                Some((v, _)) => r matches HostStep::Execute(stmt) && stmt@ == v,
                None => exists|at: int|
                    {
                        &&& 0 <= at <= text@.len()
                        &&& text@.skip(at) == stopped(text@)
                        &&& (r matches HostStep::Fail(why) && why@ == #[trigger] parse_error_text(
                            text@,
                            at,
                        ))
                    },
            },
            HostCall::At { lens, t } => r == HostStep::Execute(Stmt::At { name: lens, t }),
            HostCall::Range { lens, start, end } => r == HostStep::Execute(
                Stmt::Range { name: lens, start, end, filter: None, limit: None, offset: None },
            ),
            HostCall::Reduce { lens, start, end, func } => match agg_named(func@) {
                Some(f) => r == HostStep::Execute(Stmt::Reduce { name: lens, start, end, func: f }),
                None => r matches HostStep::Fail(why) && why@ == "unknown agg: "@ + func@,
            },
            HostCall::Log(text) => r == HostStep::Log(text),
            HostCall::Metric => r is Nothing,
            HostCall::Clock => r == HostStep::Number(now_ms),
            HostCall::ClockWindow(ms) => r == HostStep::Pair(Some((clamp(now_ms - ms), now_ms))),
            HostCall::LastWriteSpan => r == HostStep::Pair(span),
        }
    }
}

/// A function without capabilities can ask nothing of the host.
pub proof fn law_no_capability_no_call(
    call: HostCall,
    span: Option<(i64, i64)>,
    now_ms: i64,
    r: HostStep,
)
    requires
        host_step(
            Cap { run: false, at: false, range: false, log: false, metric: false, clock: false },
            call,
            span,
            now_ms,
            r,
        ),
    ensures
        r is Absent,
{
}

/// Only a function that may run statements can have one executed that is not a lookup, a
/// window or an aggregate.
pub proof fn law_reads_without_run(
    caps: Cap,
    call: HostCall,
    span: Option<(i64, i64)>,
    now_ms: i64,
    r: HostStep,
)
    requires
        !caps.run,
        host_step(caps, call, span, now_ms, r),
    ensures
        r matches HostStep::Execute(stmt) ==> stmt.reads_only(),
{
}

fn aggregate_named(name: &str) -> (r: Option<AggFunc>)
    ensures
        r == agg_named(name@),
{
    if same_text(name, "min") {
        Some(AggFunc::Min)
    } else if same_text(name, "max") {
        Some(AggFunc::Max)
    } else if same_text(name, "avg") {
        Some(AggFunc::Avg)
    } else if same_text(name, "sum") {
        Some(AggFunc::Sum)
    } else if same_text(name, "count") {
        Some(AggFunc::Count)
    } else {
        None
    }
}

/// Decides what becomes of a call of a function with the given capabilities.
pub fn host_call(caps: Cap, call: HostCall, span: Option<(i64, i64)>, now_ms: i64) -> (r: HostStep)
    ensures
        host_step(caps, call, span, now_ms, r),
{
    match call {
        HostCall::Run(text) => {
            if !caps.run {
                return HostStep::Absent;
            }
            match parse(text.as_str()) {
                Ok((_, stmt)) => HostStep::Execute(stmt),
                Err(e) => HostStep::Fail(format_parse_error(text.as_str(), e)),
            }
        },
        HostCall::At { lens, t } => if caps.at {
            HostStep::Execute(Stmt::At { name: lens, t })
        } else {
            HostStep::Absent
        },
        HostCall::Range { lens, start, end } => if caps.range {
            HostStep::Execute(
                Stmt::Range { name: lens, start, end, filter: None, limit: None, offset: None },
            )
        } else {
            HostStep::Absent
        },
        HostCall::Reduce { lens, start, end, func } => {
            if !caps.range {
                return HostStep::Absent;
            }
            match aggregate_named(func.as_str()) {
                Some(f) => HostStep::Execute(Stmt::Reduce { name: lens, start, end, func: f }),
                None => {
                    let mut why = owned("unknown agg: ");
                    why.append(func.as_str());
                    HostStep::Fail(why)
                },
            }
        },
        HostCall::Log(text) => if caps.log {
            HostStep::Log(text)
        } else {
            HostStep::Absent
        },
        HostCall::Metric => if caps.metric {
            HostStep::Nothing
        } else {
            HostStep::Absent
        },
        HostCall::Clock => if caps.clock {
            HostStep::Number(now_ms)
        } else {
            HostStep::Absent
        },
        HostCall::ClockWindow(ms) => if caps.clock {
            HostStep::Pair(Some((sub_clamped(now_ms, ms), now_ms)))
        } else {
            HostStep::Absent
        },
        HostCall::LastWriteSpan => if caps.clock {
            HostStep::Pair(span)
        } else {
            HostStep::Absent
        },
    }
}

} // verus!
