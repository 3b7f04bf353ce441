//! The read-only statements.

use crate::ast::{opt_text, Stmt};
use crate::catalog::lists_exactly;
use crate::error::{ExecError, ExecErrorV};
use crate::inputs::Inputs;
use crate::memory::stack_of;
use crate::names::{listed, lists_keys};
use crate::output::Output;
use crate::query::{
    at_as_of_of, at_layer_of, at_nd_of, at_of, history_of, range_answered, range_nd_answered,
    reduce_of,
};
use crate::service::{databases_view, Registry};
use crate::state::{lens_exists, StateV};
use crate::text::{decimal, owned, push_wide_decimal};
use crate::value::Value;
use vstd::prelude::*;

verus! {

/// The databases by name.
pub type Databases = Map<Seq<char>, StateV>;

/// The active database.
pub open spec fn active_of(databases: Databases, active: Option<Seq<char>>) -> Result<
    StateV,
    ExecErrorV,
> {
    match active {
        None => Err(ExecErrorV::NoActiveDatabase),
        Some(name) => if databases.contains_key(name) {
            Ok(databases[name])
        } else {
            Err(ExecErrorV::UnknownDatabase(name))
        },
    }
}

/// The result is the value that a lookup gives.
pub open spec fn gives_value(
    r: Result<Output, ExecError>,
    s: Result<Option<Value>, ExecErrorV>,
) -> bool {
    match s {
        Ok(v) => r matches Ok(Output::Value(x)) && x == v,
        Err(e) => r is Err && r->Err_0@ == e,
    }
}

/// The segments of a result.
pub open spec fn segments_in(r: Result<Output, ExecError>) -> Result<
    Seq<crate::layers::Segment<Value>>,
    ExecErrorV,
> {
    match r {
        Ok(Output::Range(segs)) => Ok(segs@),
        Ok(_) => Ok(Seq::empty()),
        Err(e) => Err(e@),
    }
}

/// The answer is an error or segments.
pub open spec fn is_range(r: Result<Output, ExecError>) -> bool {
    r matches Ok(o) ==> o is Range
}

/// The sum of a number over databases.
pub open spec fn summed(
    names: Seq<String>,
    databases: Databases,
    count: spec_fn(StateV) -> nat,
) -> nat
    decreases names.len(),
{
    if names.len() == 0 {
        0
    } else {
        summed(names.drop_last(), databases, count) + count(databases[names.last()@])
    }
}

/// How many base and derived lenses there are.
pub open spec fn lens_count() -> spec_fn(StateV) -> nat {
    |s: StateV| s.types.len() + s.derived.len()
}

/// How large the log is.
pub open spec fn log_size() -> spec_fn(StateV) -> nat {
    |s: StateV|
        if s.db.log is Some {
            s.db.size as nat
        } else {
            0
        }
}

pub open spec fn pairs_view(pairs: Seq<(String, String)>) -> Seq<(Seq<char>, Seq<char>)> {
    pairs.map_values(|p: (String, String)| (p.0@, p.1@))
}

/// A count, or the largest that can be held.
pub open spec fn capped(n: nat) -> nat {
    if n <= u128::MAX {
        n
    } else {
        u128::MAX as nat
    }
}

/// What `SHOW STATUS` tells.
pub open spec fn status_of(
    names: Seq<String>,
    databases: Databases,
    uptime_secs: u64,
) -> Seq<(Seq<char>, Seq<char>)> {
    seq![
        ("uptime_secs"@, decimal(uptime_secs as nat)),
        ("databases"@, decimal(names.len())),
        ("lenses"@, decimal(capped(summed(names, databases, lens_count())))),
        ("wal_bytes"@, decimal(capped(summed(names, databases, log_size())))),
    ]
}

/// What a read-only statement answers.
pub open spec fn answers(
    databases: Databases,
    active: Option<Seq<char>>,
    stmt: &Stmt,
    inputs: &Inputs,
    r: Result<Output, ExecError>,
) -> bool {
    let state = active_of(databases, active);
    match *stmt {
        Stmt::At { name, t } => match state {
            Err(e) => r is Err && r->Err_0@ == e,
            Ok(s) => gives_value(r, at_of(s, name@, t, inputs)),
        },
        Stmt::AtNd { name, ts, as_of } => match state {
            Err(e) => r is Err && r->Err_0@ == e,
            Ok(s) => gives_value(r, at_nd_of(s, name@, ts@, as_of)),
        },
        Stmt::AtAsOf { name, t, as_of } => match state {
            Err(e) => r is Err && r->Err_0@ == e,
            Ok(s) => gives_value(r, at_as_of_of(s, name@, t, as_of)),
        },
        Stmt::AtLayer { name, t, layer_id } => match state {
            Err(e) => r is Err && r->Err_0@ == e,
            Ok(s) => gives_value(r, at_layer_of(s, name@, t, layer_id)),
        },
        Stmt::HistoryLens { name, range } => match state {
            Err(e) => r is Err && r->Err_0@ == e,
            Ok(s) => match lens_exists(s, name@) {
                Err(e) => r is Err && r->Err_0@ == e,
                Ok(()) => r matches Ok(Output::LayerHistory(infos)) && infos@ == history_of(
                    stack_of(s.db.stacks, name@),
                    range,
                ),
            },
        },
        Stmt::Range { name, start, end, filter, limit, offset } => if start >= end {
            r is Err && r->Err_0@ == ExecErrorV::InvalidRange
        } else {
            match state {
                Err(e) => r is Err && r->Err_0@ == e,
                Ok(s) => is_range(r) && range_answered(
                    s,
                    name@,
                    start,
                    end,
                    match filter {
                        Some(e) => Some(&e),
                        None => None,
                    },
                    limit,
                    offset,
                    inputs,
                    segments_in(r),
                ),
            }
        },
        Stmt::RangeNd { name, start, end, fixed } => if start >= end {
            r is Err && r->Err_0@ == ExecErrorV::InvalidRange
        } else {
            match state {
                Err(e) => r is Err && r->Err_0@ == e,
                Ok(s) => is_range(r) && range_nd_answered(
                    s,
                    name@,
                    start,
                    end,
                    fixed@,
                    segments_in(r),
                ),
            }
        },
        Stmt::Reduce { name, start, end, func } => if start >= end {
            r is Err && r->Err_0@ == ExecErrorV::InvalidRange
        } else {
            match state {
                Err(e) => r is Err && r->Err_0@ == e,
                Ok(s) => gives_value(r, reduce_of(s, name@, start, end, func, inputs)),
            }
        },
        Stmt::ShowDatabases => r matches Ok(Output::Names(names)) && lists_keys(
            names@,
            databases,
        ),
        Stmt::ShowLenses => match state {
            Err(e) => r is Err && r->Err_0@ == e,
            Ok(s) => r matches Ok(Output::Names(names)) && lists_exactly(
                names@,
                |n: Seq<char>| s.has_lens(n),
            ),
        },
        Stmt::ShowStatus => r matches Ok(Output::Status(pairs)) && exists|names: Seq<String>|
            lists_keys(names, databases) && pairs_view(pairs@) == #[trigger] status_of(
                names,
                databases,
                inputs.uptime_secs,
            ),
        _ => r is Err && r->Err_0@ == ExecErrorV::InvalidExpr(
            "query service: not a read-only statement"@,
        ),
    }
}

/// The service that reads databases.
#[derive(Debug)]
pub struct QueryService<'a> {
    pub registry: &'a Registry,
}

fn wide_text(n: u128) -> (r: String)
    ensures
        r@ == decimal(n as nat),
{
    let mut out = String::new();
    push_wide_decimal(&mut out, n);
    assert(out@ =~= decimal(n as nat));
    out
}

impl<'a> QueryService<'a> {
    /// Executes a read-only statement.
    pub fn exec_read(&self, stmt: &Stmt, inputs: &Inputs) -> (r: Result<Output, ExecError>)
        requires
            forall|name: Seq<char>| #[trigger]
                self.registry.databases@.contains_key(name)
                    ==> self.registry.databases@[name]@.wf(),
        ensures
            answers(
                databases_view(self.registry.databases@),
                opt_text(self.registry.active),
                stmt,
                inputs,
                r,
            ),
    {
        match stmt {
            Stmt::At { name, t } => match self.registry.active_db() {
                Ok(s) => match s.at_lens(name.as_str(), *t, inputs) {
                    Ok(v) => Ok(Output::Value(v)),
                    Err(e) => Err(e),
                },
                Err(e) => Err(e),
            },
            Stmt::AtNd { name, ts, as_of } => match self.registry.active_db() {
                Ok(s) => match s.at_nd_lens(name.as_str(), ts, *as_of) {
                    Ok(v) => Ok(Output::Value(v)),
                    Err(e) => Err(e),
                },
                Err(e) => Err(e),
            },
            Stmt::AtAsOf { name, t, as_of } => match self.registry.active_db() {
                Ok(s) => match s.at_as_of_lens(name.as_str(), *t, *as_of) {
                    Ok(v) => Ok(Output::Value(v)),
                    Err(e) => Err(e),
                },
                Err(e) => Err(e),
            },
            Stmt::AtLayer { name, t, layer_id } => match self.registry.active_db() {
                Ok(s) => match s.at_layer_lens(name.as_str(), *t, *layer_id) {
                    Ok(v) => Ok(Output::Value(v)),
                    Err(e) => Err(e),
                },
                Err(e) => Err(e),
            },
            Stmt::HistoryLens { name, range } => match self.registry.active_db() {
                Ok(s) => match s.history_lens(name.as_str(), *range) {
                    Ok(infos) => Ok(Output::LayerHistory(infos)),
                    Err(e) => Err(e),
                },
                Err(e) => Err(e),
            },
            Stmt::Range { name, start, end, filter, limit, offset } => {
                if *start >= *end {
                    return Err(ExecError::InvalidRange);
                }
                match self.registry.active_db() {
                    Ok(s) => {
                        let cond = match filter {
                            Some(e) => Some(e),
                            None => None,
                        };
                        match s.range_lens(
                            name.as_str(),
                            *start,
                            *end,
                            cond,
                            *limit,
                            *offset,
                            inputs,
                        ) {
                            Ok(segs) => Ok(Output::Range(segs)),
                            Err(e) => Err(e),
                        }
                    },
                    Err(e) => Err(e),
                }
            },
            Stmt::RangeNd { name, start, end, fixed } => {
                if *start >= *end {
                    return Err(ExecError::InvalidRange);
                }
                match self.registry.active_db() {
                    Ok(s) => match s.range_nd_lens(name.as_str(), *start, *end, fixed) {
                        Ok(segs) => Ok(Output::Range(segs)),
                        Err(e) => Err(e),
                    },
                    Err(e) => Err(e),
                }
            },
            Stmt::Reduce { name, start, end, func } => {
                if *start >= *end {
                    return Err(ExecError::InvalidRange);
                }
                match self.registry.active_db() {
                    Ok(s) => match s.reduce_lens(name.as_str(), *start, *end, *func, inputs) {
                        Ok(v) => Ok(Output::Value(v)),
                        Err(e) => Err(e),
                    },
                    Err(e) => Err(e),
                }
            },
            Stmt::ShowDatabases => Ok(Output::Names(self.show_databases())),
            Stmt::ShowLenses => match self.registry.active_db() {
                Ok(s) => Ok(Output::Names(s.show_lenses())),
                Err(e) => Err(e),
            },
            Stmt::ShowStatus => Ok(Output::Status(self.show_status(inputs.uptime_secs))),
            _ => Err(
                ExecError::InvalidExpr(owned("query service: not a read-only statement")),
            ),
        }
    }

    /// `SHOW DATABASES`.
    pub fn show_databases(&self) -> (r: Vec<String>)
        ensures
            lists_keys(r@, databases_view(self.registry.databases@)),
    {
        let r = self.registry.databases.names();
        proof {
            let m = databases_view(self.registry.databases@);
            assert forall|k: Seq<char>| #[trigger] m.contains_key(k) <==> listed(r@, k) by {
                assert(self.registry.databases@.contains_key(k) <==> listed(r@, k));
            }
        }
        r
    }

    /// `SHOW STATUS`.
    pub fn show_status(&self, uptime_secs: u64) -> (r: Vec<(String, String)>)
        ensures
            exists|names: Seq<String>|
                lists_keys(names, databases_view(self.registry.databases@)) && pairs_view(r@)
                    == #[trigger] status_of(
                    names,
                    databases_view(self.registry.databases@),
                    uptime_secs,
                ),
    {
        let names = self.show_databases();
        let ghost m = databases_view(self.registry.databases@);
        let mut lenses: u128 = 0;
        let mut bytes: u128 = 0;
        let mut i: usize = 0;
        assert(names@.take(0) =~= Seq::empty());
        while i < names.len()
            invariant
                i <= names@.len(),
                m == databases_view(self.registry.databases@),
                lists_keys(names@, m),
                lenses == capped(summed(names@.take(i as int), m, lens_count())),
                bytes == capped(summed(names@.take(i as int), m, log_size())),
            decreases names@.len() - i,
        {
            let name = names[i].as_str();
            proof {
                assert(listed(names@, name@));
                assert(m.contains_key(name@));
                assert(names@.take(i + 1).drop_last() =~= names@.take(i as int));
                assert(names@.take(i + 1).last() == names@[i as int]);
            }
            if let Some(s) = self.registry.databases.get(name) {
                let a: usize = s.catalog.types.len();
                let b: usize = s.catalog.derived.len();
                let c: u64 = s.db.wal_size_bytes();
                assert(m[name@] == s@);
                lenses = lenses.saturating_add(a as u128 + b as u128);
                bytes = bytes.saturating_add(c as u128);
            }
            i = i + 1;
        }
        assert(names@.take(names@.len() as int) =~= names@);
        let pairs = vec![
            (owned("uptime_secs"), wide_text(uptime_secs as u128)),
            (owned("databases"), wide_text(names.len() as u128)),
            (owned("lenses"), wide_text(lenses)),
            (owned("wal_bytes"), wide_text(bytes)),
        ];
        assert(pairs_view(pairs@) =~= status_of(names@, m, uptime_secs));
        pairs
    }
}

} // verus!
