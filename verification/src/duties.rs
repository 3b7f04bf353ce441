//! When user-defined functions run.

use crate::ast::{Literal, Stmt, TriggerKindV};
use crate::copy::Row;
use crate::error::{ExecError, ExecErrorV};
use crate::functions::{
    has_function, is_due, names_apart, place_of, places, put_off, watches, without_function,
    FunctionV,
};
use crate::floats::FloatTable;
use crate::inputs::Inputs;
use crate::kernel::{routed, Action, KernelV};
use crate::operators::named_by;
use crate::output::Output;
use crate::service::StorageBackend;
use crate::state::literal_rows;
use vstd::prelude::*;

verus! {

/// How long a function that is scheduled every so many seconds waits, in milliseconds: a
/// thousand times as many, as far as a word goes, and one where that is less.
pub open spec fn wait(every_secs: i64) -> int {
    if every_secs <= 0 {
        1
    } else if 1000 * every_secs > i64::MAX {
        i64::MAX as int
    } else {
        1000 * every_secs
    }
}

/// The time has come, or it is the last moment of all.
pub open spec fn has_come(t: i64, moment: int) -> bool {
    t >= moment || t == i64::MAX
}

/// A function that is created to run every `n` seconds is due a thousand times `n`
/// milliseconds later, and not before.
pub proof fn law_scheduled_function_first_runs(
    v: KernelV,
    threshold: usize,
    backend: StorageBackend,
    stmt: &Stmt,
    inputs: &Inputs,
    r: Result<Action, ExecError>,
    after: KernelV,
    t: i64,
)
    requires
        stmt matches Stmt::CreateFunction { kind, .. } && kind is Cron,
        routed(v, threshold, backend, stmt, inputs, r, after),
        r is Ok,
    ensures
        stmt matches Stmt::CreateFunction { name, kind, .. } && after.functions.len() > 0
            && after.functions.last().name == name@ && (is_due(after.functions.last(), t)
            <==> has_come(t, inputs.now_ms + wait(kind->every_secs))),
{
}

/// A function that is due at a time and then runs is due again a thousand times `n`
/// milliseconds later, and not before. One that is not due is not put off by running.
pub proof fn law_scheduled_function_runs_again(f: FunctionV, now_ms: i64, t: i64)
    requires
        f.kind is Cron,
    ensures
        is_due(f, now_ms) ==> (is_due(put_off(f, now_ms), t) <==> has_come(
            t,
            now_ms + wait(f.kind->every_secs),
        )),
        !is_due(f, now_ms) ==> put_off(f, now_ms) == f,
        put_off(f, now_ms).name == f.name,
        put_off(f, now_ms).source == f.source,
        put_off(f, now_ms).kind == f.kind,
        put_off(f, now_ms).caps == f.caps,
{
}

/// A function that is due stays due until it runs, and only scheduled functions are ever due.
pub proof fn law_due_functions_stay_due(f: FunctionV, now_ms: i64, later: i64)
    requires
        is_due(f, now_ms),
        later >= now_ms,
    ensures
        f.kind is Cron,
        is_due(f, later),
{
}

/// A function with a name that was created has the source, the kind and the capabilities that
/// were given, and every other function is as it was. Where a function had the name, it is
/// gone.
pub proof fn law_created_function_is_there(
    v: KernelV,
    threshold: usize,
    backend: StorageBackend,
    stmt: &Stmt,
    inputs: &Inputs,
    r: Result<Action, ExecError>,
    after: KernelV,
    other: FunctionV,
)
    requires
        names_apart(v.functions),
        stmt is CreateFunction,
        routed(v, threshold, backend, stmt, inputs, r, after),
        r is Ok,
    ensures
        stmt matches Stmt::CreateFunction { name, kind, caps, body } && {
            &&& other.name != name@ ==> (after.functions.contains(other)
                <==> v.functions.contains(other))
            &&& other.name == name@ && after.functions.contains(other) ==> other.source == body@
                && other.kind == kind@ && other.caps == caps
            &&& has_function(after.functions, name@)
            &&& names_apart(after.functions)
        },
{
    if let Stmt::CreateFunction { name, .. } = *stmt {
        let f = after.functions.last();
        lemma_without(v.functions, name@);
        let rest = without_function(v.functions, name@);
        assert(after.functions == rest.push(f));
        assert(after.functions[rest.len() as int] == f);
        assert forall|g: FunctionV| g.name != name@ implies (#[trigger] after.functions.contains(g)
            <==> v.functions.contains(g)) by {
            if after.functions.contains(g) {
                let i = choose|i: int|
                    0 <= i < after.functions.len() && after.functions[i] == g;
                assert(i < rest.len());
                assert(rest[i] == g);
                assert(rest.contains(g));
            }
            if v.functions.contains(g) {
                assert(rest.contains(g));
                let i = choose|i: int| 0 <= i < rest.len() && rest[i] == g;
                assert(after.functions[i] == g);
            }
        }
        if other.name == name@ && after.functions.contains(other) {
            let i = choose|i: int|
                0 <= i < after.functions.len() && after.functions[i] == other;
            if i < rest.len() {
                assert(rest[i].name == name@);
                assert(has_function(rest, name@));
            }
        }
        assert forall|i: int, j: int|
            #![trigger after.functions[i], after.functions[j]]
            0 <= i < j < after.functions.len() implies after.functions[i].name
            != after.functions[j].name by {
            if j < rest.len() {
                assert(rest[i].name != rest[j].name);
            } else {
                if rest[i].name == name@ {
                    assert(has_function(rest, name@));
                }
            }
        }
    }
}

proof fn lemma_without(fs: Seq<FunctionV>, name: Seq<char>)
    requires
        names_apart(fs),
    ensures
        !has_function(without_function(fs, name), name),
        names_apart(without_function(fs, name)),
        forall|g: FunctionV|
            g.name != name ==> (#[trigger] without_function(fs, name).contains(g)
                <==> fs.contains(g)),
{
    let rest = without_function(fs, name);
    if has_function(fs, name) {
        let p = place_of(fs, name);
        assert(fs[p].name == name);
        assert(forall|i: int|
            #![trigger rest[i]]
            0 <= i < rest.len() ==> rest[i] == fs[if i < p {
                i
            } else {
                i + 1
            }]);
        if has_function(rest, name) {
            let i = choose|i: int| 0 <= i < rest.len() && (#[trigger] rest[i]).name == name;
            let k = if i < p {
                i
            } else {
                i + 1
            };
            assert(rest[i] == fs[k]);
            assert(fs[k].name == fs[p].name);
        }
        assert forall|i: int, j: int|
            #![trigger rest[i], rest[j]]
            0 <= i < j < rest.len() implies rest[i].name != rest[j].name by {
            let k = if i < p {
                i
            } else {
                i + 1
            };
            let l = if j < p {
                j
            } else {
                j + 1
            };
            assert(fs[k].name != fs[l].name);
        }
        assert forall|g: FunctionV| g.name != name implies (#[trigger] rest.contains(g)
            <==> fs.contains(g)) by {
            if rest.contains(g) {
                let i = choose|i: int| 0 <= i < rest.len() && rest[i] == g;
                assert(fs[if i < p {
                    i
                } else {
                    i + 1
                }] == g);
            }
            if fs.contains(g) {
                let k = choose|k: int| 0 <= k < fs.len() && fs[k] == g;
                let i = if k < p {
                    k
                } else {
                    k - 1
                };
                assert(rest[i] == g);
            }
        }
    }
}

/// A function that was dropped is gone, and every other one is as it was. One that is not
/// there cannot be dropped.
pub proof fn law_dropped_function_is_gone(
    v: KernelV,
    threshold: usize,
    backend: StorageBackend,
    name: String,
    inputs: &Inputs,
    r: Result<Action, ExecError>,
    after: KernelV,
    other: FunctionV,
)
    requires
        names_apart(v.functions),
        routed(v, threshold, backend, &Stmt::DropFunction { name }, inputs, r, after),
    ensures
        r is Ok ==> !has_function(after.functions, name@) && has_function(v.functions, name@),
        r is Ok && other.name != name@ ==> (after.functions.contains(other)
            <==> v.functions.contains(other)),
        r is Err ==> after.functions == v.functions,
        !has_function(v.functions, name@) ==> r is Err && r->Err_0@ == ExecErrorV::InvalidExpr(
            "unknown function: "@ + name@,
        ),
{
    lemma_without(v.functions, name@);
}

/// The function that is called is the one with the name; a name that no function has is
/// refused. Calling changes nothing by itself.
pub proof fn law_called_function_has_the_name(
    v: KernelV,
    threshold: usize,
    backend: StorageBackend,
    stmt: &Stmt,
    inputs: &Inputs,
    r: Result<Action, ExecError>,
    after: KernelV,
)
    requires
        stmt is CallFunction,
        routed(v, threshold, backend, stmt, inputs, r, after),
    ensures
        after == v,
        stmt matches Stmt::CallFunction { name, .. } && match r {
            Ok(action) => action matches Action::Call { place } && place < v.functions.len()
                && v.functions[place as int].name == name@,
            Err(e) => !has_function(v.functions, name@) && e@ == ExecErrorV::InvalidExpr(
                "unknown function: "@ + name@,
            ),
        },
{
    if let Stmt::CallFunction { name, .. } = *stmt {
        if has_function(v.functions, name@) {
            let p = place_of(v.functions, name@);
            assert(v.functions[p].name == name@);
        }
    }
}

/// The function runs after a write to the lens: it was created for writes to any lens, or to
/// this one.
pub open spec fn runs_on(f: FunctionV, lens: Seq<char>) -> bool {
    f.kind == (TriggerKindV::OnWrite { lens: None }) || f.kind == (TriggerKindV::OnWrite {
        lens: Some(lens),
    })
}

/// The places are those of the functions that run after a write to the lens, in the order in
/// which they were created.
pub open spec fn run_in_order(fs: Seq<FunctionV>, lens: Seq<char>, at: Seq<usize>) -> bool {
    &&& forall|i: int, j: int|
        #![trigger at[i], at[j]]
        0 <= i < j < at.len() ==> at[i] < at[j]
    &&& forall|i: int|
        #![trigger fs[i]]
        0 <= i < fs.len() ==> (runs_on(fs[i], lens) <==> exists|k: int|
            0 <= k < at.len() && #[trigger] at[k] == i)
    &&& forall|k: int| 0 <= k < at.len() ==> #[trigger] at[k] < fs.len()
}

/// The rows are those of the literals: the same intervals, with the values that the literals
/// name.
pub open spec fn rows_of_literals(
    taus: Seq<(i64, i64, Literal)>,
    floats: &FloatTable,
    rows: Seq<Row>,
) -> bool {
    &&& rows.len() == taus.len()
    &&& forall|i: int|
        #![trigger rows[i]]
        0 <= i < rows.len() ==> rows[i].0 == taus[i].0 && rows[i].1 == taus[i].1 && named_by(
            floats,
            taus[i].2,
            rows[i].2,
        )
}

/// After an append that succeeds outside a trigger, the functions run that were created for
/// writes to the lens or to any lens, and are given what was written. Where there is none,
/// nothing is left to do.
pub proof fn law_writes_set_off_their_functions(
    v: KernelV,
    threshold: usize,
    backend: StorageBackend,
    stmt: &Stmt,
    inputs: &Inputs,
    r: Result<Action, ExecError>,
    after: KernelV,
)
    requires
        stmt is Append || stmt is BatchAppend,
        v.depth == 0,
        routed(v, threshold, backend, stmt, inputs, r, after),
    ensures
        after.functions == v.functions,
        ({
            let (name, taus) = match *stmt {
                Stmt::Append { name, taus } => (name@, taus@),
                Stmt::BatchAppend { name, taus } => (name@, taus@),
                _ => (Seq::empty(), Seq::empty()),
            };
            let some = exists|i: int|
                0 <= i < v.functions.len() && runs_on(#[trigger] v.functions[i], name);
            r matches Ok(action) ==> if some {
                action matches Action::Trigger { lens, rows, places: at } && lens@ == name
                    && run_in_order(v.functions, name, at@) && rows_of_literals(
                    taus,
                    &inputs.floats,
                    rows@,
                )
            } else {
                action == Action::Done(Output::Empty)
            }
        }),
{
    let (name, taus) = match *stmt {
        Stmt::Append { name, taus } => (name@, taus@),
        Stmt::BatchAppend { name, taus } => (name@, taus@),
        _ => (Seq::empty(), Seq::empty()),
    };
    assert forall|f: FunctionV| #[trigger] watches(f, name) == runs_on(f, name) by {}
    let p = |f: FunctionV| watches(f, name);
    if let Ok(rows) = literal_rows(taus, &inputs.floats) {
        lemma_literal_rows(taus, inputs, rows);
    }
    if r is Ok && r->Ok_0 is Trigger {
        let at = r->Ok_0->places@;
        let fs = v.functions;
        if places(fs, p, at) {
            assert forall|i: int|
                #![trigger fs[i]]
                0 <= i < fs.len() implies (runs_on(fs[i], name) <==> exists|k: int|
                0 <= k < at.len() && #[trigger] at[k] == i) by {
                assert(p(fs[i]) == watches(fs[i], name));
                if exists|k: int| 0 <= k < at.len() && #[trigger] at[k] == i {
                    let k = choose|k: int| 0 <= k < at.len() && #[trigger] at[k] == i;
                    assert(p(fs[at[k] as int]));
                }
            }
        }
    }
}

pub proof fn lemma_literal_rows(
    taus: Seq<(i64, i64, Literal)>,
    inputs: &Inputs,
    rows: Seq<Row>,
)
    requires
        literal_rows(taus, &inputs.floats) == Ok::<Seq<Row>, ExecErrorV>(rows),
    ensures
        rows_of_literals(taus, &inputs.floats, rows),
    decreases taus.len(),
{
    if taus.len() > 0 {
        let less = literal_rows(taus.drop_last(), &inputs.floats)->Ok_0;
        lemma_literal_rows(taus.drop_last(), inputs, less);
    }
}

} // verus!
