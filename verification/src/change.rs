//! The statements that change a database.

use crate::ast::{texts_view, Expr, Literal, Stmt};
use crate::catalog::{
    collect_deps, law_checked_derivation_stays_acyclic, law_dropped_derivation_stays_acyclic,
    lemma_more_derivations, lists_exactly, reaches, reads, would_cycle, Catalog, XderiveDef,
};
use crate::clock::seconds_of;
use crate::copy::{parse_rows, Row};
use crate::database::{Database, DatabaseV, RecordV};
use crate::error::{same, same_view, ExecError, ExecErrorV};
use crate::eval::{in_sequence, Scope};
use crate::exact::{share, Exact};
use crate::faults::FaultInjector;
use crate::floats::FloatTable;
use crate::inputs::{read_file, Inputs};
use crate::layers::Segment;
use crate::memory::{InMemory, Limits};
use crate::model::{all_wf, boxes_apart, times_apart, Bound, Layer, Tau, Timestamp};
use crate::names::{listed, lists_keys, NameMap};
use crate::ops::literal_value;
use crate::order::{rearranged, Rank};
use crate::render::{create_text, derive_text, ttl_text};
use crate::state::{
    after_trial, all_distinct, box_of, boxes_meet, boxes_written, checked_boxes, create_lens_of,
    def_view, definitions, dependents_refreshed, derived_lens, drop_lens_of, file_copied, filled,
    first_refused, flat_rows, holds_boxes, is_base_lens, is_next, is_ok, is_ready, is_single_axis,
    is_stirred, is_undone, laid, laid_as, lens_changed, lens_exists, literal_rows, materialised_lens,
    materialising, misfit, named, no_boxes_meet, note, other_names, reads_any, reads_single_axis,
    recomputed, refreshed, row_boxes, rows_apart, rows_error, rows_tried, rows_written,
    segments_type, turned, update_ttl_of, upright, wrong_arity, BoxLiteral, BoxV, DbState, DefV, Refresh,
    StateV, World,
};
use crate::text::{owned, push_wide_decimal, same_text};
use crate::value::{Type, Value};
use std::sync::Arc;
use vstd::prelude::*;

verus! {

/// A database together with the countdown to the next log failure.
pub open spec fn world(state: &DbState, faults: &FaultInjector) -> World {
    World { state: state@, faults: faults.countdown as int }
}


/// The complaint about a number of coordinates.
pub fn arity_error(name: &str, declared: usize, supplied: u128) -> (r: ExecError)
    ensures
        r@ == wrong_arity(name@, declared as nat, supplied as nat),
{
    let mut out = String::from_str("lens '");
    out.append(name);
    out.append("' has ");
    push_wide_decimal(&mut out, declared as u128);
    out.append(" axes but the statement supplies ");
    push_wide_decimal(&mut out, supplied);
    ExecError::InvalidExpr(out)
}

/// The lens must be known.
pub fn ensure_lens_exists(state: &DbState, name: &str) -> (r: Result<(), ExecError>)
    ensures
        same(r, lens_exists(state@, name@)),
{
    if state.catalog.types.contains_key(name) || state.catalog.derived.contains_key(name) {
        Ok(())
    } else {
        Err(ExecError::UnknownLens(owned(name)))
    }
}

/// The lens must be a base lens.
pub fn ensure_base_lens(state: &DbState, name: &str, stmt_kind: &str) -> (r: Result<(), ExecError>)
    ensures
        same(r, is_base_lens(state@, name@, stmt_kind@)),
{
    if state.catalog.types.contains_key(name) {
        Ok(())
    } else if state.catalog.derived.contains_key(name) {
        let mut out = owned(stmt_kind);
        out.append(" is only supported for base lenses");
        Err(ExecError::InvalidExpr(out))
    } else {
        Err(ExecError::UnknownLens(owned(name)))
    }
}

/// The lens must have one axis.
pub fn ensure_single_axis(state: &DbState, name: &str, stmt_kind: &str) -> (r: Result<
    (),
    ExecError,
>)
    ensures
        same(r, is_single_axis(state@, name@, stmt_kind@)),
{
    match state.catalog.axes.get(name) {
        Some(axes) => {
            let mut out = owned(stmt_kind);
            out.append(": lens '");
            out.append(name);
            out.append("' has ");
            push_wide_decimal(&mut out, axes.len() as u128);
            out.append(" axes; supply one coordinate per axis");
            Err(ExecError::InvalidExpr(out))
        },
        None => Ok(()),
    }
}

fn no_name_twice(names: &Vec<String>) -> (r: bool)
    ensures
        r == all_distinct(texts_view(names@)),
{
    let ghost texts = texts_view(names@);
    let mut j: usize = 0;
    while j < names.len()
        invariant
            j <= names@.len(),
            texts == texts_view(names@),
            forall|p: int, q: int|
                #![trigger texts[p], texts[q]]
                0 <= p < q < j ==> texts[p] != texts[q],
        decreases names@.len() - j,
    {
        let mut i: usize = 0;
        while i < j
            invariant
                i <= j < names@.len(),
                texts == texts_view(names@),
                forall|p: int| 0 <= p < i ==> #[trigger] texts[p] != texts[j as int],
            decreases j - i,
        {
            if same_text(names[i].as_str(), names[j].as_str()) {
                assert(texts[i as int] == texts[j as int]);
                return false;
            }
            i = i + 1;
        }
        j = j + 1;
    }
    true
}

fn copy_names(names: &Vec<String>) -> (r: Vec<String>)
    ensures
        texts_view(r@) == texts_view(names@),
{
    let mut out: Vec<String> = Vec::new();
    let mut i: usize = 0;
    while i < names.len()
        invariant
            i <= names@.len(),
            texts_view(out@) =~= texts_view(names@).take(i as int),
        decreases names@.len() - i,
    {
        let ghost before = out@;
        out.push(names[i].clone());
        assert(texts_view(out@) =~= texts_view(before).push(names@[i as int]@));
        i = i + 1;
    }
    assert(texts_view(names@).take(names@.len() as int) =~= texts_view(names@));
    out
}

impl DbState {
    /// An empty database, with a log or without.
    pub fn new(compact_threshold: usize, logged: bool) -> (r: Self)
        ensures
            r@.wf(),
            r@ == (StateV {
                types: Map::empty(),
                derived: Map::empty(),
                ranges: Map::empty(),
                stored: Map::empty(),
                ttl: Map::empty(),
                axes: Map::empty(),
                db: DatabaseV {
                    stacks: Map::empty(),
                    limits: Limits { general: compact_threshold, own: Map::empty() },
                    log: if logged {
                        Some(Seq::empty())
                    } else {
                        None
                    },
                    compactions: 0,
                    size: 0,
                    max_bytes: None,
                    events: Seq::empty(),
                },
                next_id: 1,
            }),
    {
        let store: InMemory<Value> = InMemory::with_threshold(compact_threshold);
        let db = if logged {
            Database::with_wal(store, Vec::new())
        } else {
            Database::new(store)
        };
        let r = DbState { catalog: Catalog::new(), db, next_layer_id: 1 };
        proof {
            assert(r@.stored =~= Map::empty());
            assert(r@.axes =~= Map::empty());
            if logged {
                assert(r@.db.log->Some_0 =~= Seq::empty());
            }
        }
        r
    }

    /// A copy that shares the layers and the expressions.
    pub fn dup(&self) -> (r: Self)
        ensures
            r@ == self@,
    {
        let r = DbState {
            catalog: self.catalog.dup(),
            db: self.db.dup(),
            next_layer_id: self.next_layer_id,
        };
        assert(r@ =~= self@);
        r
    }

    fn note_schema(&mut self, text: &str, faults: &mut FaultInjector) -> (r: Result<(), ExecError>)
        ensures
            ({
                let (ok, next) = note(
                    world(&*old(self), &*old(faults)),
                    RecordV::Schema(text@),
                );
                same(r, is_ok(ok)) && world(&*final(self), &*final(faults)) == next
            }),
            final(self).catalog == old(self).catalog,
    {
        match self.db.append_schema(text, faults) {
            Ok(()) => Ok(()),
            Err(e) => Err(ExecError::Io(e)),
        }
    }

    /// `CREATE LENS`.
    pub fn create_lens(
        &mut self,
        name: &str,
        ty: Type,
        axes: &Vec<String>,
        in_replay: bool,
        faults: &mut FaultInjector,
    ) -> (r: Result<(), ExecError>)
        requires
            old(self)@.wf(),
        ensures
            final(self)@.wf(),
            ({
                let (result, next) = create_lens_of(
                    world(&*old(self), &*old(faults)),
                    name@,
                    ty,
                    texts_view(axes@),
                    in_replay,
                );
                same(r, result) && world(&*final(self), &*final(faults)) == next
            }),
    {
        if self.catalog.types.contains_key(name) || self.catalog.derived.contains_key(name) {
            return Err(ExecError::DuplicateLens(owned(name)));
        }
        if !no_name_twice(axes) {
            return Err(ExecError::InvalidExpr(owned("AXES names must be distinct")));
        }
        if !in_replay {
            let text = create_text(name, ty, axes);
            if let Err(e) = self.note_schema(text.as_str(), faults) {
                return Err(e);
            }
        }
        let ghost before = self@;
        self.catalog.types.insert(name, ty);
        if axes.len() > 1 {
            self.catalog.axes.insert(name, Arc::new(copy_names(axes)));
        }
        proof {
            assert(self@.stored =~= before.stored);
            if axes@.len() > 1 {
                assert(self@.axes =~= before.axes.insert(name@, texts_view(axes@)));
            } else {
                assert(self@.axes =~= before.axes);
            }
        }
        Ok(())
    }

    /// `SET TTL LENS`, or `UNSET TTL LENS` where no seconds are given.
    pub fn update_ttl(
        &mut self,
        name: &str,
        secs: Option<i64>,
        in_replay: bool,
        faults: &mut FaultInjector,
    ) -> (r: Result<(), ExecError>)
        requires
            old(self)@.wf(),
        ensures
            final(self)@.wf(),
            ({
                let (result, next) = update_ttl_of(
                    world(&*old(self), &*old(faults)),
                    name@,
                    secs,
                    in_replay,
                );
                same(r, result) && world(&*final(self), &*final(faults)) == next
            }),
    {
        if let Err(e) = ensure_lens_exists(self, name) {
            return Err(e);
        }
        if let Err(e) = ensure_single_axis(self, name, "TTL") {
            return Err(e);
        }
        if !in_replay {
            let text = ttl_text(name, secs);
            if let Err(e) = self.note_schema(text.as_str(), faults) {
                return Err(e);
            }
        }
        let ghost before = self@;
        match secs {
            Some(s) => self.catalog.ttl.insert(name, s),
            None => {
                let _ = self.catalog.ttl.remove(name);
            },
        }
        assert(self@.stored =~= before.stored);
        assert(self@.axes =~= before.axes);
        Ok(())
    }

    /// `DROP LENS`.
    pub fn drop_lens(&mut self, name: &str, in_replay: bool, faults: &mut FaultInjector) -> (r:
        Result<(), ExecError>)
        requires
            old(self)@.wf(),
        ensures
            final(self)@.wf(),
            ({
                let (result, next) = drop_lens_of(
                    world(&*old(self), &*old(faults)),
                    name@,
                    in_replay,
                );
                same(r, result) && world(&*final(self), &*final(faults)) == next
            }),
    {
        let known: bool = self.catalog.types.contains_key(name) || self.catalog.derived.contains_key(
            name,
        ) || self.catalog.stored.contains_key(name);
        assert(known == (self@.has_lens(name@) || self@.stored.contains_key(name@)));
        if !known {
            return Err(ExecError::UnknownLens(owned(name)));
        }
        if !in_replay {
            if let Err(e) = self.db.append_drop(name, faults) {
                return Err(ExecError::Io(e));
            }
        }
        let ghost before = self@;
        let _ = self.catalog.types.remove(name);
        let _ = self.catalog.derived.remove(name);
        let _ = self.catalog.ranges.remove(name);
        let _ = self.catalog.axes.remove(name);
        let _ = self.catalog.stored.remove(name);
        let _ = self.catalog.ttl.remove(name);
        self.db.drop_lens(name);
        proof {
            assert(self@.stored =~= before.stored.remove(name@));
            assert(self@.axes =~= before.axes.remove(name@));
            law_dropped_derivation_stays_acyclic(before.derived, name@);
        }
        Ok(())
    }
}

/// An executable result as a spec function gives it.
pub open spec fn shown(r: Result<(), ExecError>) -> Result<(), ExecErrorV> {
    match r {
        Ok(()) => Ok(()),
        Err(e) => Err(e@),
    }
}

/// The taus of rows.
fn row_taus(rows: &Vec<Row>) -> (r: Vec<Tau<Value>>)
    requires
        forall|i: int| 0 <= i < rows@.len() ==> (#[trigger] rows@[i]).0 < rows@[i].1,
    ensures
        all_wf(r@),
        r@.map_values(|tau: Tau<Value>| box_of(tau)) == row_boxes(rows@),
        times_apart(r@) <==> rows_apart(rows@),
{
    let mut out: Vec<Tau<Value>> = Vec::new();
    let mut i: usize = 0;
    while i < rows.len()
        invariant
            i <= rows@.len(),
            out@.len() == i,
            forall|i: int| 0 <= i < rows@.len() ==> (#[trigger] rows@[i]).0 < rows@[i].1,
            forall|k: int|
                0 <= k < i ==> {
                    &&& (#[trigger] out@[k]).wf()
                    &&& out@[k].coords@ =~= seq![(Bound { hi: rows@[k].1, lo: rows@[k].0 })]
                    &&& out@[k].value == rows@[k].2
                },
        decreases rows@.len() - i,
    {
        let (lo, hi): (i64, i64) = (rows[i].0, rows[i].1);
        let value = rows[i].2.dup();
        out.push(Tau::new(lo, hi, value));
        i = i + 1;
    }
    proof {
        let taken = out@.map_values(|tau: Tau<Value>| box_of(tau));
        assert forall|k: int| 0 <= k < rows@.len() implies taken[k] == #[trigger] row_boxes(rows@)[k] by {
            assert(out@[k].wf());
            assert(box_of(out@[k]).0 =~= seq![(rows@[k].0, rows@[k].1)]);
        }
        assert(taken =~= row_boxes(rows@));
        if times_apart(out@) {
            assert forall|i: int, j: int|
                #![trigger rows@[i], rows@[j]]
                0 <= i < rows@.len() && 0 <= j < rows@.len() && i != j implies !(rows@[i].0
                < rows@[j].1 && rows@[j].0 < rows@[i].1) by {
                assert(!out@[i].overlaps(&out@[j]));
            }
        }
        if rows_apart(rows@) {
            assert forall|i: int, j: int|
                #![trigger out@[i], out@[j]]
                0 <= i < out@.len() && 0 <= j < out@.len() && i != j implies !out@[i].overlaps(
                &out@[j],
            ) by {
                assert(!(rows@[i].0 < rows@[j].1 && rows@[j].0 < rows@[i].1));
            }
        }
    }
    out
}

/// The first error among rows, if there is one.
fn check_rows(name: &str, ty: Type, rows: &Vec<Row>) -> (r: Result<(), ExecError>)
    ensures
        match rows_error(name@, ty, rows@) {
            Some(e) => r is Err && r->Err_0@ == e,
            None => r is Ok && forall|i: int|
                0 <= i < rows@.len() ==> (#[trigger] rows@[i]).0 < rows@[i].1,
        },
{
    let mut i: usize = 0;
    assert(rows@.take(0) =~= Seq::empty());
    while i < rows.len()
        invariant
            i <= rows@.len(),
            rows_error(name@, ty, rows@.take(i as int)) is None,
            forall|k: int| 0 <= k < i ==> (#[trigger] rows@[k]).0 < rows@[k].1,
        decreases rows@.len() - i,
    {
        proof {
            assert(rows@.take(i + 1).drop_last() =~= rows@.take(i as int));
            assert(rows@.take(i + 1).last() == rows@[i as int]);
        }
        if rows[i].0 >= rows[i].1 {
            proof {
                lemma_rows_error_stays(name@, ty, rows@, i + 1);
            }
            return Err(ExecError::InvalidRange);
        }
        if let Err(e) = check_fit(name, ty, &rows[i].2) {
            proof {
                lemma_rows_error_stays(name@, ty, rows@, i + 1);
            }
            return Err(e);
        }
        i = i + 1;
    }
    assert(rows@.take(rows@.len() as int) =~= rows@);
    Ok(())
}

proof fn lemma_rows_error_stays(lens: Seq<char>, ty: Type, rows: Seq<Row>, k: int)
    requires
        0 <= k <= rows.len(),
        rows_error(lens, ty, rows.take(k)) is Some,
    ensures
        rows_error(lens, ty, rows) == rows_error(lens, ty, rows.take(k)),
    decreases rows.len(),
{
    if k < rows.len() {
        assert(rows.drop_last().take(k) =~= rows.take(k));
        lemma_rows_error_stays(lens, ty, rows.drop_last(), k);
    } else {
        assert(rows.take(k) =~= rows);
    }
}

/// The value must be null or of the given type.
fn check_fit(name: &str, ty: Type, v: &Value) -> (r: Result<(), ExecError>)
    ensures
        match misfit(name@, ty, *v) {
            Some(e) => r is Err && r->Err_0@ == e,
            None => r is Ok,
        },
{
    if let Some(got) = v.ty() {
        if got != ty {
            return Err(
                ExecError::TypeMismatch {
                    lens: owned(name),
                    expected: ty,
                    got: owned(v.type_label()),
                },
            );
        }
    }
    Ok(())
}

/// Whether a text is in a list.
fn is_listed(names: &Vec<String>, name: &str) -> (r: bool)
    ensures
        r == listed(names@, name@),
{
    let mut i: usize = 0;
    while i < names.len()
        invariant
            i <= names@.len(),
            forall|k: int| 0 <= k < i ==> (#[trigger] names@[k])@ != name@,
        decreases names@.len() - i,
    {
        if same_text(names[i].as_str(), name) {
            return true;
        }
        i = i + 1;
    }
    false
}

impl DbState {
    fn refuse_axes(&self, expr: &Expr, kind: &str) -> (r: Result<(), ExecError>)
        ensures
            match r {
                Ok(()) => reads_single_axis(self@, expr),
                Err(e) => !reads_single_axis(self@, expr) && exists|names: Seq<String>, i: int|
                    first_refused(self@, expr, kind@, e@, names, i),
            },
    {
        let deps = collect_deps(&self.catalog.derived, expr);
        let ghost s = self@;
        let mut i: usize = 0;
        while i < deps.len()
            invariant
                i <= deps@.len(),
                s == self@,
                lists_exactly(deps@, |n: Seq<char>| reads(s.derived, expr, n)),
                forall|j: int| 0 <= j < i ==> !s.axes.contains_key((#[trigger] deps@[j])@),
            decreases deps@.len() - i,
        {
            if let Err(e) = ensure_single_axis(self, deps[i].as_str(), kind) {
                proof {
                    assert(listed(deps@, deps@[i as int]@));
                    assert(reads(s.derived, expr, deps@[i as int]@));
                    assert(first_refused(s, expr, kind@, e@, deps@, i as int));
                }
                return Err(e);
            }
            i = i + 1;
        }
        proof {
            assert forall|n: Seq<char>| #[trigger] reads(s.derived, expr, n) implies !s.axes.contains_key(
                n,
            ) by {
                assert(listed(deps@, n));
            }
        }
        Ok(())
    }

    /// `DERIVE LENS`.
    pub fn derive_lens(
        &mut self,
        name: &str,
        expr: &Expr,
        range: Option<(Timestamp, Timestamp)>,
        in_replay: bool,
        faults: &mut FaultInjector,
    ) -> (r: Result<(), ExecError>)
        requires
            old(self)@.wf(),
        ensures
            final(self)@.wf(),
            derived_lens(
                world(&*old(self), &*old(faults)),
                name@,
                expr,
                range,
                in_replay,
                shown(r),
                world(&*final(self), &*final(faults)),
            ),
    {
        if self.catalog.types.contains_key(name) || self.catalog.derived.contains_key(name) {
            return Err(ExecError::DuplicateLens(owned(name)));
        }
        if would_cycle(&self.all_definitions(), name, expr) {
            return Err(ExecError::CycleDetected(owned(name)));
        }
        if let Err(e) = self.refuse_axes(expr, "DERIVE") {
            return Err(e);
        }
        if !in_replay {
            let text = derive_text(name, expr, range, false);
            if let Err(e) = self.note_schema(text.as_str(), faults) {
                return Err(e);
            }
        }
        let ghost before = self@;
        self.catalog.derived.insert(name, Arc::new(expr.clone()));
        if let Some(window) = range {
            self.catalog.ranges.insert(name, window);
        }
        proof {
            assert(self@.stored =~= before.stored);
            assert(self@.axes =~= before.axes);
            if reaches(before.derived, expr, name@) {
                lemma_more_derivations(before.derived, definitions(before), expr, name@);
            }
            law_checked_derivation_stays_acyclic(before.derived, name@, Arc::new(*expr));
        }
        Ok(())
    }

    /// The expressions of the derived and of the materialised lenses.
    fn all_definitions(&self) -> (r: NameMap<Arc<Expr>>)
        ensures
            r@ == definitions(self@),
    {
        let ghost s = self@;
        let mut out: NameMap<Arc<Expr>> = self.catalog.derived.dup();
        let names = self.catalog.stored.names();
        let mut i: usize = 0;
        while i < names.len()
            invariant
                i <= names@.len(),
                s == self@,
                lists_keys(names@, self.catalog.stored@),
                forall|n: Seq<char>|
                    {
                        &&& #[trigger] out@.contains_key(n) <==> s.derived.contains_key(n) || listed(
                            names@.take(i as int),
                            n,
                        )
                        &&& out@.contains_key(n) ==> out@[n] == definitions(s)[n]
                    },
            decreases names@.len() - i,
        {
            let name = names[i].as_str();
            let ghost before = out@;
            assert(listed(names@, name@));
            if !self.catalog.derived.contains_key(name) {
                if let Some(def) = self.catalog.stored.get(name) {
                    out.insert(name, Arc::new(def.expr.clone()));
                    proof {
                        assert(s.stored[name@] == def_view(*def));
                        assert(definitions(s).contains_key(name@));
                    }
                }
            }
            proof {
                let (some, more) = (names@.take(i as int), names@.take(i + 1));
                assert forall|n: Seq<char>| listed(more, n) <==> listed(some, n) || n == name@ by {
                    if listed(more, n) {
                        let k = choose|k: int| 0 <= k < more.len() && (#[trigger] more[k])@ == n;
                        if k < i {
                            assert(some[k]@ == n);
                        }
                    }
                    if listed(some, n) {
                        let k = choose|k: int| 0 <= k < some.len() && (#[trigger] some[k])@ == n;
                        assert(more[k]@ == n);
                    }
                    if n == name@ {
                        assert(more[i as int]@ == n);
                    }
                }
                assert forall|n: Seq<char>|
                    {
                        &&& #[trigger] out@.contains_key(n) <==> s.derived.contains_key(n) || listed(
                            more,
                            n,
                        )
                        &&& out@.contains_key(n) ==> out@[n] == definitions(s)[n]
                    } by {
                    assert(before.contains_key(n) <==> s.derived.contains_key(n) || listed(some, n));
                }
            }
            i = i + 1;
        }
        proof {
            assert(names@.take(names@.len() as int) =~= names@);
            assert forall|n: Seq<char>| out@.contains_key(n) == definitions(s).contains_key(n) by {
                assert(self.catalog.stored@.contains_key(n) <==> listed(names@, n));
            }
            assert(out@ =~= definitions(s));
        }
        out
    }

    /// Appends a layer that has the next number.
    fn lay(&mut self, name: &str, layer: Layer<Value>, faults: &mut FaultInjector) -> (r: Result<
        (),
        ExecError,
    >)
        requires
            old(self)@.wf(),
            layer.wf(),
            layer.id == old(self)@.next_id,
        ensures
            final(self)@.wf(),
            final(self).catalog == old(self).catalog,
            forall|boxes: Seq<BoxV>|
                holds_boxes(layer, boxes) ==> #[trigger] laid(
                    world(&*old(self), &*old(faults)),
                    name@,
                    boxes,
                    layer.written_at,
                    shown(r),
                    world(&*final(self), &*final(faults)),
                ),
    {
        let ghost before = world(&*self, &*faults);
        let r = match self.db.append(name, layer, faults) {
            Ok(()) => {
                self.next_layer_id = if self.next_layer_id == u64::MAX {
                    0
                } else {
                    self.next_layer_id + 1
                };
                Ok(())
            },
            Err(e) => Err(ExecError::Io(e)),
        };
        proof {
            let after = world(&*self, &*faults);
            assert forall|boxes: Seq<BoxV>| holds_boxes(layer, boxes) implies #[trigger] laid(
                before,
                name@,
                boxes,
                layer.written_at,
                shown(r),
                after,
            ) by {
                assert(laid_as(before, name@, boxes, layer.written_at, shown(r), after, layer));
            }
        }
        r
    }

    /// Appends what a materialised lens is to hold.
    fn append_materialised_layer(
        &mut self,
        name: &str,
        segs: &Vec<Segment<Value>>,
        now_ms: i64,
        faults: &mut FaultInjector,
    ) -> (r: Result<(), ExecError>)
        requires
            old(self)@.wf(),
            in_sequence(segs@),
        ensures
            final(self)@.wf(),
            final(self).catalog == old(self).catalog,
            filled(
                world(&*old(self), &*old(faults)),
                name@,
                segs@,
                now_ms,
                shown(r),
                world(&*final(self), &*final(faults)),
            ),
    {
        if segs.len() == 0 {
            return Ok(());
        }
        let taus = row_taus(segs);
        proof {
            assert forall|i: int, j: int|
                #![trigger segs@[i], segs@[j]]
                0 <= i < segs@.len() && 0 <= j < segs@.len() && i != j implies !(segs@[i].0
                < segs@[j].1 && segs@[j].0 < segs@[i].1) by {
                if i < j {
                    assert(segs@[i].1 <= segs@[j].0);
                } else {
                    assert(segs@[j].1 <= segs@[i].0);
                }
            }
            assert(rows_apart(segs@));
        }
        let ghost given = taus@;
        match Layer::try_new_at(self.next_layer_id, taus, now_ms) {
            Some(layer) => {
                proof {
                    assert(rearranged(given, layer.taus@));
                    assert(holds_boxes(layer, row_boxes(segs@)));
                }
                self.lay(name, layer, faults)
            },
            None => Ok(()),
        }
    }

    pub fn scope<'a>(&'a self, inputs: &'a Inputs) -> (r: Scope<'a>)
        ensures
            r.env() == self@.env(inputs),
    {
        Scope {
            catalog: &self.catalog,
            store: &self.db.store,
            floats: &inputs.floats,
            now: seconds_of(inputs.now_ms),
        }
    }

    /// Whether a materialised lens reads one of the lenses in a list, the one at `skipped`
    /// left out.
    fn reads_one_of(&self, name: &str, lenses: &Vec<String>, skipped: usize) -> (r: bool)
        requires
            self@.stored.contains_key(name@),
        ensures
            skipped < lenses@.len() ==> r == reads_any(
                self@,
                name@,
                other_names(lenses@, skipped as int),
            ),
            skipped >= lenses@.len() ==> r == reads_any(self@, name@, named(lenses@)),
    {
        let ghost s = self@;
        let ghost e = &s.stored[name@].expr;
        let ghost rest = if skipped < lenses@.len() {
            lenses@.remove(skipped as int)
        } else {
            lenses@
        };
        let deps: Vec<String> = match self.catalog.stored.get(name) {
            Some(def) => {
                assert(s.stored[name@] == def_view(*def));
                collect_deps(&self.catalog.derived, &def.expr)
            },
            None => Vec::new(),
        };
        assert(lists_exactly(deps@, |n: Seq<char>| reads(s.derived, e, n)));
        let mut i: usize = 0;
        while i < lenses.len()
            invariant
                i <= lenses@.len(),
                lists_exactly(deps@, |n: Seq<char>| reads(s.derived, e, n)),
                rest == if skipped < lenses@.len() {
                    lenses@.remove(skipped as int)
                } else {
                    lenses@
                },
                forall|k: int|
                    0 <= k < i && k != skipped ==> !reads(s.derived, e, (#[trigger] lenses@[k])@),
                e == &s.stored[name@].expr,
                s == self@,
            decreases lenses@.len() - i,
        {
            if i != skipped {
                let ghost n = lenses@[i as int]@;
                if is_listed(&deps, lenses[i].as_str()) {
                    proof {
                        let k = if skipped < i {
                            i - 1
                        } else {
                            i as int
                        };
                        assert(rest[k]@ == n);
                        assert(named(rest).contains(n));
                        assert(listed(deps@, n));
                        assert(reads(s.derived, e, n));
                    }
                    return true;
                }
                assert(!listed(deps@, n));
                assert(!reads(s.derived, e, n));
            }
            i = i + 1;
        }
        assert forall|n: Seq<char>| #[trigger] reads(s.derived, e, n) implies !named(rest).contains(
            n,
        ) by {
            if named(rest).contains(n) {
                let k = choose|k: int| 0 <= k < rest.len() && (#[trigger] rest[k])@ == n;
                let m = if skipped < lenses@.len() && k >= skipped {
                    k + 1
                } else {
                    k
                };
                assert(lenses@[m]@ == n);
            }
        }
        false
    }

    /// Which of the lenses that are left comes next.
    fn next_view(&self, left: &Vec<String>, changed: &Vec<String>) -> (r: Option<usize>)
        requires
            forall|i: int|
                0 <= i < left@.len() ==> self@.stored.contains_key((#[trigger] left@[i])@),
        ensures
            r matches Some(i) ==> i < left@.len(),
            is_next(
                self@,
                left@,
                named(changed@),
                match r {
                    Some(i) => Some(i as int),
                    None => None,
                },
            ),
    {
        let mut i: usize = 0;
        while i < left.len()
            invariant
                i <= left@.len(),
                forall|k: int|
                    0 <= k < left@.len() ==> self@.stored.contains_key((#[trigger] left@[k])@),
                forall|k: int| 0 <= k < i ==> !#[trigger] is_ready(self@, left@, k),
            decreases left@.len() - i,
        {
            if !self.reads_one_of(left[i].as_str(), left, i) {
                assert(is_ready(self@, left@, i as int));
                return Some(i);
            }
            assert(!is_ready(self@, left@, i as int));
            i = i + 1;
        }
        let mut j: usize = 0;
        while j < left.len()
            invariant
                j <= left@.len(),
                forall|k: int|
                    0 <= k < left@.len() ==> self@.stored.contains_key((#[trigger] left@[k])@),
                forall|k: int|
                    0 <= k < left@.len() ==> !#[trigger] is_ready(self@, left@, k),
                forall|k: int|
                    0 <= k < j ==> !#[trigger] is_stirred(
                        self@,
                        left@,
                        named(changed@),
                        k,
                    ),
            decreases left@.len() - j,
        {
            if self.reads_one_of(left[j].as_str(), changed, changed.len()) {
                assert(!is_ready(self@, left@, j as int));
                assert(is_stirred(self@, left@, named(changed@), j as int));
                return Some(j);
            }
            assert(!is_stirred(self@, left@, named(changed@), j as int));
            j = j + 1;
        }
        None
    }

    /// Computes anew, of the lenses that are left, each that reads something that has changed.
    fn refresh(
        &mut self,
        left: Vec<String>,
        changed: Vec<String>,
        inputs: &Inputs,
        faults: &mut FaultInjector,
    ) -> (r: Result<(), ExecError>)
        requires
            old(self)@.wf(),
            forall|i: int|
                0 <= i < left@.len() ==> old(self)@.stored.contains_key((#[trigger] left@[i])@),
        ensures
            final(self)@.wf(),
            final(self).catalog == old(self).catalog,
            refreshed(
                world(&*old(self), &*old(faults)),
                left@,
                named(changed@),
                inputs,
                shown(r),
                world(&*final(self), &*final(faults)),
            ),
        decreases left@.len(),
    {
        let ghost w = world(&*self, &*faults);
        let ghost before = left@;
        let i: usize = match self.next_view(&left, &changed) {
            None => {
                proof {
                    let turn = Refresh { world: w, result: Ok(()), next: None };
                    assert(turned(w, before, named(changed@), inputs, turn));
                }
                return Ok(());
            },
            Some(i) => i,
        };
        let mut left = left;
        let mut changed = changed;
        let ghost was = changed@;
        let stirred: bool = self.reads_one_of(left[i].as_str(), &changed, changed.len());
        assert(stirred == is_stirred(w.state, before, named(was), i as int));
        let name: String = left.remove(i);
        proof {
            assert(name == before[i as int]);
            assert forall|k: int| 0 <= k < left@.len() implies self@.stored.contains_key(
                (#[trigger] left@[k])@,
            ) by {
                let m = if k < i {
                    k
                } else {
                    k + 1
                };
                assert(left@[k] == before[m]);
            }
        }
        if !stirred {
            let r = self.refresh(left, changed, inputs, faults);
            proof {
                let turn = Refresh { world: w, result: Ok(()), next: Some(i as int) };
                assert(turned(w, before, named(was), inputs, turn));
            }
            return r;
        }
        let one: Result<(), ExecError> = self.recompute(name.as_str(), inputs, faults);
        let ghost turn = Refresh {
            world: world(&*self, &*faults),
            result: shown(one),
            next: Some(i as int),
        };
        assert(turned(w, before, named(was), inputs, turn));
        if let Err(e) = one {
            return Err(e);
        }
        changed.push(name);
        proof {
            lemma_named_push(was, name);
        }
        self.refresh(left, changed, inputs, faults)
    }

    /// Computes a materialised lens anew.
    fn recompute(&mut self, name: &str, inputs: &Inputs, faults: &mut FaultInjector) -> (r: Result<
        (),
        ExecError,
    >)
        requires
            old(self)@.wf(),
            old(self)@.stored.contains_key(name@),
        ensures
            final(self)@.wf(),
            final(self).catalog == old(self).catalog,
            recomputed(
                world(&*old(self), &*old(faults)),
                name@,
                inputs,
                shown(r),
                world(&*final(self), &*final(faults)),
            ),
    {
        let def: Arc<XderiveDef> = match self.catalog.stored.get(name) {
            Some(def) => share(def),
            None => {
                return Ok(());
            },
        };
        assert(self@.stored[name@] == def_view(def));
        let fuel: usize = self.catalog.derived.len();
        let segs: Vec<Segment<Value>> = match self.scope(inputs).materialise_expr(
            &def.expr,
            def.range,
            fuel,
        ) {
            Ok(segs) => segs,
            Err(e) => {
                return Err(e);
            },
        };
        self.append_materialised_layer(name, &segs, inputs.now_ms, faults)
    }

    /// Computes anew every materialised lens that reads `changed`, directly or in turn.
    fn rematerialise_dependents(
        &mut self,
        changed: &str,
        inputs: &Inputs,
        faults: &mut FaultInjector,
    ) -> (r: Result<(), ExecError>)
        requires
            old(self)@.wf(),
        ensures
            final(self)@.wf(),
            final(self).catalog == old(self).catalog,
            dependents_refreshed(
                world(&*old(self), &*old(faults)),
                changed@,
                inputs,
                shown(r),
                world(&*final(self), &*final(faults)),
            ),
    {
        let ghost w = world(&*self, &*faults);
        let names = self.catalog.stored.names();
        let mut first: Vec<String> = Vec::new();
        first.push(owned(changed));
        proof {
            assert(named(first@) =~= set![changed@]) by {
                assert forall|n: Seq<char>| listed(first@, n) <==> n == changed@ by {
                    if n == changed@ {
                        assert(first@[0]@ == n);
                    }
                }
            }
            assert(lists_keys(names@, w.state.stored)) by {
                assert forall|k: Seq<char>| #[trigger]
                    w.state.stored.contains_key(k) <==> listed(names@, k) by {
                    assert(self.catalog.stored@.contains_key(k) <==> listed(names@, k));
                }
            }
            assert forall|i: int| 0 <= i < names@.len() implies self@.stored.contains_key(
                (#[trigger] names@[i])@,
            ) by {
                assert(listed(names@, names@[i]@));
            }
        }
        self.refresh(names, first, inputs, faults)
    }

    /// Appends rows to a lens of one axis as one new layer, and computes anew whatever
    /// reads the lens.
    pub fn write_layer(
        &mut self,
        name: &str,
        rows: &Vec<Row>,
        inputs: &Inputs,
        faults: &mut FaultInjector,
    ) -> (r: Result<(), ExecError>)
        requires
            old(self)@.wf(),
        ensures
            final(self)@.wf(),
            rows_written(
                world(&*old(self), &*old(faults)),
                name@,
                rows@,
                inputs,
                shown(r),
                world(&*final(self), &*final(faults)),
            ),
    {
        let ghost w = world(&*self, &*faults);
        if rows.len() == 0 {
            return Ok(());
        }
        if self.catalog.stored.contains_key(name) {
            assert(self@.stored.contains_key(name@));
            return Err(ExecError::MaterialisedLens(owned(name)));
        }
        assert(!self@.stored.contains_key(name@));
        let ty: Type = match self.catalog.types.get(name) {
            Some(ty) => *ty,
            None => {
                return Err(ExecError::UnknownLens(owned(name)));
            },
        };
        if let Some(axes) = self.catalog.axes.get(name) {
            return Err(arity_error(name, axes.len(), 1));
        }
        if let Err(e) = check_rows(name, ty, rows) {
            return Err(e);
        }
        let taus = row_taus(rows);
        let ghost given = taus@;
        let layer: Layer<Value> = match Layer::try_new_at(self.next_layer_id, taus, inputs.now_ms) {
            Some(layer) => layer,
            None => {
                return Err(ExecError::InvalidRange);
            },
        };
        proof {
            assert(rearranged(given, layer.taus@));
            assert(holds_boxes(layer, row_boxes(rows@)));
        }
        let saved: DbState = self.dup();
        let one: Result<(), ExecError> = self.lay(name, layer, faults);
        let ghost mid = Refresh {
            world: world(&*self, &*faults),
            result: shown(one),
            next: None,
        };
        assert(laid(w, name@, row_boxes(rows@), inputs.now_ms, mid.result, mid.world));
        if let Err(e) = one {
            proof {
                assert(rows_tried(w, name@, rows@, inputs, mid.result, mid.world));
                assert(world(&*self, &*faults) == after_trial(w, mid.result, mid.world));
            }
            return Err(e);
        }
        let r = self.rematerialise_dependents(name, inputs, faults);
        let ghost tried = world(&*self, &*faults);
        assert(rows_tried(w, name@, rows@, inputs, shown(r), tried));
        if undoes(&r) {
            *self = saved;
        }
        assert(world(&*self, &*faults) == after_trial(w, shown(r), tried));
        r
    }
}

/// Whether a result undoes what was tried.
fn undoes(r: &Result<(), ExecError>) -> (b: bool)
    ensures
        b == (shown(*r) is Err && is_undone(shown(*r)->Err_0)),
{
    match r {
        Ok(()) => false,
        Err(e) => e.is_pending() || matches!(e, ExecError::Io(_)),
    }
}

proof fn lemma_named_push(names: Seq<String>, name: String)
    ensures
        named(names.push(name)) == named(names).insert(name@),
{
    let more = names.push(name);
    assert forall|n: Seq<char>| #[trigger] named(more).contains(n) <==> named(names).insert(
        name@,
    ).contains(n) by {
        if named(more).contains(n) {
            let k = choose|k: int| 0 <= k < more.len() && (#[trigger] more[k])@ == n;
            if k < names.len() {
                assert(names[k]@ == n);
            }
        }
        if named(names).contains(n) {
            let k = choose|k: int| 0 <= k < names.len() && (#[trigger] names[k])@ == n;
            assert(more[k]@ == n);
        }
        if n == name@ {
            assert(more[names.len() as int]@ == n);
        }
    }
    assert(named(more) =~= named(names).insert(name@));
}

/// Literal rows as values.
pub fn literal_taus(taus: &Vec<(i64, i64, Literal)>, floats: &FloatTable) -> (r: Result<
    Vec<Row>,
    ExecError,
>)
    ensures
        same_view(r, |rows: Vec<Row>| rows@, literal_rows(taus@, floats)),
{
    let mut out: Vec<Row> = Vec::new();
    let mut i: usize = 0;
    assert(taus@.take(0) =~= Seq::empty());
    while i < taus.len()
        invariant
            i <= taus@.len(),
            literal_rows(taus@.take(i as int), floats) == Ok::<Seq<Row>, ExecErrorV>(out@),
        decreases taus@.len() - i,
    {
        proof {
            assert(taus@.take(i + 1).drop_last() =~= taus@.take(i as int));
            assert(taus@.take(i + 1).last() == taus@[i as int]);
        }
        match literal_value(&taus[i].2, floats) {
            Ok(v) => out.push((taus[i].0, taus[i].1, v)),
            Err(e) => {
                proof {
                    lemma_literal_rows_error(taus@, floats, i + 1);
                }
                return Err(e);
            },
        }
        i = i + 1;
    }
    assert(taus@.take(taus@.len() as int) =~= taus@);
    Ok(out)
}

proof fn lemma_literal_rows_error(taus: Seq<(i64, i64, Literal)>, floats: &FloatTable, k: int)
    requires
        0 <= k <= taus.len(),
        literal_rows(taus.take(k), floats) is Err,
    ensures
        literal_rows(taus, floats) == literal_rows(taus.take(k), floats),
    decreases taus.len(),
{
    if k < taus.len() {
        assert(taus.drop_last().take(k) =~= taus.take(k));
        lemma_literal_rows_error(taus.drop_last(), floats, k);
    } else {
        assert(taus.take(k) =~= taus);
    }
}

/// Literal boxes of one axis as rows.
fn flat_taus(name: &str, taus: &Vec<BoxLiteral>, floats: &FloatTable) -> (r: Result<
    Vec<Row>,
    ExecError,
>)
    ensures
        same_view(r, |rows: Vec<Row>| rows@, flat_rows(name@, taus@, floats)),
{
    let mut out: Vec<Row> = Vec::new();
    let mut i: usize = 0;
    assert(taus@.take(0) =~= Seq::empty());
    while i < taus.len()
        invariant
            i <= taus@.len(),
            flat_rows(name@, taus@.take(i as int), floats) == Ok::<Seq<Row>, ExecErrorV>(out@),
        decreases taus@.len() - i,
    {
        proof {
            assert(taus@.take(i + 1).drop_last() =~= taus@.take(i as int));
            assert(taus@.take(i + 1).last() == taus@[i as int]);
        }
        let tau = &taus[i];
        if tau.0.len() != 1 {
            proof {
                lemma_flat_rows_error(name@, taus@, floats, i + 1);
            }
            return Err(arity_error(name, 1, tau.0.len() as u128));
        }
        match literal_value(&tau.1, floats) {
            Ok(v) => out.push((tau.0[0].0, tau.0[0].1, v)),
            Err(e) => {
                proof {
                    lemma_flat_rows_error(name@, taus@, floats, i + 1);
                }
                return Err(e);
            },
        }
        i = i + 1;
    }
    assert(taus@.take(taus@.len() as int) =~= taus@);
    Ok(out)
}

proof fn lemma_flat_rows_error(
    name: Seq<char>,
    taus: Seq<BoxLiteral>,
    floats: &FloatTable,
    k: int,
)
    requires
        0 <= k <= taus.len(),
        flat_rows(name, taus.take(k), floats) is Err,
    ensures
        flat_rows(name, taus, floats) == flat_rows(name, taus.take(k), floats),
    decreases taus.len(),
{
    if k < taus.len() {
        assert(taus.drop_last().take(k) =~= taus.take(k));
        lemma_flat_rows_error(name, taus.drop_last(), floats, k);
    } else {
        assert(taus.take(k) =~= taus);
    }
}

/// Literal boxes of several axes as taus.
fn check_boxes(
    name: &str,
    arity: usize,
    ty: Type,
    taus: &Vec<BoxLiteral>,
    floats: &FloatTable,
) -> (r: Result<Vec<Tau<Value>>, ExecError>)
    ensures
        match checked_boxes(name@, arity as nat, ty, taus@, floats) {
            Err(e) => r is Err && r->Err_0@ == e,
            Ok(boxes) => r is Ok && all_wf(r->Ok_0@) && r->Ok_0@.map_values(
                |tau: Tau<Value>| box_of(tau),
            ) == boxes && forall|i: int|
                0 <= i < boxes.len() ==> (#[trigger] boxes[i]).0.len() == arity,
        },
{
    let mut out: Vec<Tau<Value>> = Vec::new();
    let ghost mut boxes: Seq<BoxV> = Seq::empty();
    let mut i: usize = 0;
    assert(taus@.take(0) =~= Seq::empty());
    while i < taus.len()
        invariant
            i <= taus@.len(),
            checked_boxes(name@, arity as nat, ty, taus@.take(i as int), floats) == Ok::<
                Seq<BoxV>,
                ExecErrorV,
            >(boxes),
            all_wf(out@),
            out@.map_values(|tau: Tau<Value>| box_of(tau)) =~= boxes,
            forall|k: int| 0 <= k < boxes.len() ==> (#[trigger] boxes[k]).0.len() == arity,
        decreases taus@.len() - i,
    {
        proof {
            assert(taus@.take(i + 1).drop_last() =~= taus@.take(i as int));
            assert(taus@.take(i + 1).last() == taus@[i as int]);
            if checked_boxes(name@, arity as nat, ty, taus@.take(i + 1), floats) is Err {
                lemma_checked_boxes_error(name@, arity as nat, ty, taus@, floats, i + 1);
            }
        }
        let tau = &taus[i];
        if tau.0.len() != arity {
            return Err(arity_error(name, arity, tau.0.len() as u128));
        }
        let value: Value = match literal_value(&tau.1, floats) {
            Ok(v) => v,
            Err(e) => {
                return Err(e);
            },
        };
        if let Err(e) = check_fit(name, ty, &value) {
            return Err(e);
        }
        match Tau::try_new_nd(tau.0.as_slice(), value) {
            Some(made) => {
                let ghost before = out@;
                proof {
                    assert(upright(tau.0@));
                    assert(box_of(made).0 =~= tau.0@);
                    boxes = boxes.push((tau.0@, value));
                }
                out.push(made);
                proof {
                    assert(out@.map_values(|tau: Tau<Value>| box_of(tau)) =~= before.map_values(
                        |tau: Tau<Value>| box_of(tau),
                    ).push(box_of(made)));
                }
            },
            None => {
                return Err(ExecError::InvalidRange);
            },
        }
        i = i + 1;
    }
    assert(taus@.take(taus@.len() as int) =~= taus@);
    Ok(out)
}

proof fn lemma_checked_boxes_error(
    name: Seq<char>,
    arity: nat,
    ty: Type,
    taus: Seq<BoxLiteral>,
    floats: &FloatTable,
    k: int,
)
    requires
        0 <= k <= taus.len(),
        checked_boxes(name, arity, ty, taus.take(k), floats) is Err,
    ensures
        checked_boxes(name, arity, ty, taus, floats) == checked_boxes(
            name,
            arity,
            ty,
            taus.take(k),
            floats,
        ),
    decreases taus.len(),
{
    if k < taus.len() {
        assert(taus.drop_last().take(k) =~= taus.take(k));
        lemma_checked_boxes_error(name, arity, ty, taus.drop_last(), floats, k);
    } else {
        assert(taus.take(k) =~= taus);
    }
}

proof fn lemma_boxes_apart(taus: Seq<Tau<Value>>, boxes: Seq<BoxV>)
    requires
        taus.map_values(|tau: Tau<Value>| box_of(tau)) == boxes,
    ensures
        boxes_apart(taus) <==> no_boxes_meet(boxes),
{
    assert forall|i: int, j: int|
        #![trigger taus[i], taus[j]]
        0 <= i < taus.len() && 0 <= j < taus.len() implies (taus[i].meets(&taus[j])
        <==> boxes_meet(boxes[i].0, boxes[j].0)) by {
        let a = taus[i];
        let b = taus[j];
        assert(boxes[i] == box_of(a) && boxes[j] == box_of(b));
        if a.coords@.len() == b.coords@.len() {
            assert forall|k: int| 0 <= k < a.coords@.len() implies boxes[i].0[k] == (
            #[trigger] a.coords@[k].lo, a.coords@[k].hi) && boxes[j].0[k] == (
            b.coords@[k].lo,
            b.coords@[k].hi,
            ) by {}
            if a.meets(&b) {
                assert forall|k: int| 0 <= k < boxes[i].0.len() implies (#[trigger] boxes[i].0[k]).0
                    < boxes[j].0[k].1 && boxes[j].0[k].0 < boxes[i].0[k].1 by {
                    assert(a.coords@[k].lo < b.coords@[k].hi);
                }
            }
            if boxes_meet(boxes[i].0, boxes[j].0) {
                assert forall|k: int| 0 <= k < a.coords@.len() implies (#[trigger] a.coords@[k]).lo
                    < b.coords@[k].hi && b.coords@[k].lo < a.coords@[k].hi by {
                    assert(boxes[i].0[k].0 < boxes[j].0[k].1);
                }
            }
        }
    }
    if boxes_apart(taus) {
        assert forall|i: int, j: int|
            #![trigger boxes[i], boxes[j]]
            0 <= i < boxes.len() && 0 <= j < boxes.len() && i != j implies !boxes_meet(
            boxes[i].0,
            boxes[j].0,
        ) by {
            assert(!taus[i].meets(&taus[j]));
        }
    }
    if no_boxes_meet(boxes) {
        assert forall|i: int, j: int|
            #![trigger taus[i], taus[j]]
            0 <= i < taus.len() && 0 <= j < taus.len() && i != j implies !taus[i].meets(
            &taus[j],
        ) by {
            assert(!boxes_meet(boxes[i].0, boxes[j].0));
        }
    }
}

/// The type of the first value that has one.
pub fn infer_type(segs: &Vec<Segment<Value>>) -> (r: Option<Type>)
    ensures
        segments_type(segs@) == match r {
            Some(ty) => ty,
            None => Type::Int,
        },
        r is None <==> forall|i: int| 0 <= i < segs@.len() ==> (#[trigger] segs@[i]).2.kind() is None,
{
    let mut i: usize = 0;
    assert(segs@.skip(0) =~= segs@);
    while i < segs.len()
        invariant
            i <= segs@.len(),
            segments_type(segs@) == segments_type(segs@.skip(i as int)),
            forall|k: int| 0 <= k < i ==> (#[trigger] segs@[k]).2.kind() is None,
        decreases segs@.len() - i,
    {
        proof {
            assert(segs@.skip(i as int)[0] == segs@[i as int]);
            assert(segs@.skip(i as int).drop_first() =~= segs@.skip(i + 1));
        }
        if let Some(ty) = segs[i].2.ty() {
            return Some(ty);
        }
        i = i + 1;
    }
    None
}

impl DbState {
    /// Appends boxes of several axes as one new layer.
    pub fn append_nd_lens(
        &mut self,
        name: &str,
        taus: &Vec<BoxLiteral>,
        inputs: &Inputs,
        faults: &mut FaultInjector,
    ) -> (r: Result<(), ExecError>)
        requires
            old(self)@.wf(),
        ensures
            final(self)@.wf(),
            boxes_written(
                world(&*old(self), &*old(faults)),
                name@,
                taus@,
                inputs,
                shown(r),
                world(&*final(self), &*final(faults)),
            ),
    {
        if taus.len() == 0 {
            return Ok(());
        }
        let arity: usize = match self.catalog.axes.get(name) {
            Some(axes) => axes.len(),
            None => 1,
        };
        assert(arity == self@.arity(name@));
        if arity == 1 {
            let rows: Vec<Row> = match flat_taus(name, taus, &inputs.floats) {
                Ok(rows) => rows,
                Err(e) => {
                    return Err(e);
                },
            };
            return self.write_layer(name, &rows, inputs, faults);
        }
        if self.catalog.stored.contains_key(name) {
            assert(self@.stored.contains_key(name@));
            return Err(ExecError::MaterialisedLens(owned(name)));
        }
        assert(!self@.stored.contains_key(name@));
        let ty: Type = match self.catalog.types.get(name) {
            Some(ty) => *ty,
            None => {
                return Err(ExecError::UnknownLens(owned(name)));
            },
        };
        let boxes: Vec<Tau<Value>> = match check_boxes(name, arity, ty, taus, &inputs.floats) {
            Ok(boxes) => boxes,
            Err(e) => {
                return Err(e);
            },
        };
        let ghost given = boxes@;
        let ghost wanted = given.map_values(|tau: Tau<Value>| box_of(tau));
        proof {
            lemma_boxes_apart(given, wanted);
            assert forall|i: int, j: int|
                #![trigger given[i], given[j]]
                0 <= i < given.len() && 0 <= j < given.len() implies given[i].coords@.len()
                == given[j].coords@.len() by {
                assert(wanted[i].0.len() == arity && wanted[j].0.len() == arity);
                assert(wanted[i] == box_of(given[i]) && wanted[j] == box_of(given[j]));
            }
        }
        match Layer::try_new_nd_at(self.next_layer_id, boxes, inputs.now_ms) {
            Some(layer) => {
                proof {
                    assert(rearranged(given, layer.taus@));
                    assert(holds_boxes(layer, wanted));
                }
                self.lay(name, layer, faults)
            },
            None => {
                self.next_layer_id = if self.next_layer_id == u64::MAX {
                    0
                } else {
                    self.next_layer_id + 1
                };
                Err(ExecError::InvalidRange)
            },
        }
    }

    /// Appends the rows of a file as one new layer.
    pub fn copy_lens(
        &mut self,
        name: &str,
        path: &str,
        inputs: &Inputs,
        faults: &mut FaultInjector,
    ) -> (r: Result<(), ExecError>)
        requires
            old(self)@.wf(),
        ensures
            final(self)@.wf(),
            file_copied(
                world(&*old(self), &*old(faults)),
                name@,
                path@,
                inputs,
                shown(r),
                world(&*final(self), &*final(faults)),
            ),
    {
        let text: String = match read_file(&inputs.files, path) {
            Ok(text) => text,
            Err(e) => {
                return Err(e);
            },
        };
        match parse_rows(text.as_str(), &inputs.floats) {
            Ok(rows) => self.write_layer(name, &rows, inputs, faults),
            Err(e) => Err(e),
        }
    }

    /// `XDERIVE LENS`.
    pub fn xderive_lens(
        &mut self,
        name: &str,
        expr: &Expr,
        range: Option<(Timestamp, Timestamp)>,
        in_replay: bool,
        inputs: &Inputs,
        faults: &mut FaultInjector,
    ) -> (r: Result<(), ExecError>)
        requires
            old(self)@.wf(),
        ensures
            final(self)@.wf(),
            materialised_lens(
                world(&*old(self), &*old(faults)),
                name@,
                expr,
                range,
                in_replay,
                inputs,
                shown(r),
                world(&*final(self), &*final(faults)),
            ),
    {
        let ghost s = self@;
        let ghost w = world(&*self, &*faults);
        let ghost def = DefV { expr: *expr, range };
        let made = Arc::new(XderiveDef { expr: expr.clone(), range });
        assert(def_view(made) == def);
        if in_replay {
            self.catalog.stored.insert(name, made);
            assert(self@.stored =~= s.stored.insert(name@, def));
            return Ok(());
        }
        if self.catalog.types.contains_key(name) || self.catalog.derived.contains_key(name)
            || self.catalog.stored.contains_key(name) {
            assert(s.has_lens(name@) || s.stored.contains_key(name@));
            return Err(ExecError::DuplicateLens(owned(name)));
        }
        if would_cycle(&self.all_definitions(), name, expr) {
            return Err(ExecError::CycleDetected(owned(name)));
        }
        if let Err(e) = self.refuse_axes(expr, "XDERIVE") {
            return Err(e);
        }
        let fuel: usize = self.catalog.derived.len();
        let segs: Vec<Segment<Value>> = match self.scope(inputs).materialise_expr(
            expr,
            range,
            fuel,
        ) {
            Ok(segs) => segs,
            Err(e) => {
                return Err(e);
            },
        };
        let ty: Type = match infer_type(&segs) {
            Some(ty) => ty,
            None => Type::Int,
        };
        let saved: DbState = self.dup();
        let r = self.declare_materialised(name, expr, range, &segs, ty, made, inputs, faults);
        let ghost tried = world(&*self, &*faults);
        assert(materialising(w, name@, expr, range, segs@, inputs, shown(r), tried));
        if undoes(&r) {
            *self = saved;
        }
        assert(world(&*self, &*faults) == after_trial(w, shown(r), tried));
        r
    }

    /// Declares a materialised lens and fills it, up to the first failure.
    fn declare_materialised(
        &mut self,
        name: &str,
        expr: &Expr,
        range: Option<(Timestamp, Timestamp)>,
        segs: &Vec<Segment<Value>>,
        ty: Type,
        made: Arc<XderiveDef>,
        inputs: &Inputs,
        faults: &mut FaultInjector,
    ) -> (r: Result<(), ExecError>)
        requires
            old(self)@.wf(),
            !old(self)@.has_lens(name@),
            ty == segments_type(segs@),
            def_view(made) == (DefV { expr: *expr, range }),
            in_sequence(segs@),
        ensures
            final(self)@.wf(),
            materialising(
                world(&*old(self), &*old(faults)),
                name@,
                expr,
                range,
                segs@,
                inputs,
                shown(r),
                world(&*final(self), &*final(faults)),
            ),
    {
        let ghost def = def_view(made);
        let no_axes: Vec<String> = Vec::new();
        assert(texts_view(no_axes@) =~= Seq::empty());
        let create = create_text(name, ty, &no_axes);
        if let Err(e) = self.note_schema(create.as_str(), faults) {
            return Err(e);
        }
        let define = derive_text(name, expr, range, true);
        if let Err(e) = self.note_schema(define.as_str(), faults) {
            return Err(e);
        }
        let ghost before = self@;
        self.catalog.types.insert(name, ty);
        self.catalog.stored.insert(name, made);
        proof {
            assert(self@.stored =~= before.stored.insert(name@, def));
            assert(self@.axes =~= before.axes);
        }
        self.append_materialised_layer(name, segs, inputs.now_ms, faults)
    }

    /// Executes a statement on the lenses of this database. In a replay nothing is logged.
    pub fn exec_lens(
        &mut self,
        stmt: &Stmt,
        in_replay: bool,
        inputs: &Inputs,
        faults: &mut FaultInjector,
    ) -> (r: Result<(), ExecError>)
        requires
            old(self)@.wf(),
        ensures
            final(self)@.wf(),
            lens_changed(
                world(&*old(self), &*old(faults)),
                stmt,
                in_replay,
                inputs,
                shown(r),
                world(&*final(self), &*final(faults)),
            ),
    {
        match stmt {
            Stmt::Create { name, ty, axes } => self.create_lens(
                name.as_str(),
                *ty,
                axes,
                in_replay,
                faults,
            ),
            Stmt::Append { name, taus } => match literal_taus(taus, &inputs.floats) {
                Ok(rows) => self.write_layer(name.as_str(), &rows, inputs, faults),
                Err(e) => Err(e),
            },
            Stmt::BatchAppend { name, taus } => match literal_taus(taus, &inputs.floats) {
                Ok(rows) => self.write_layer(name.as_str(), &rows, inputs, faults),
                Err(e) => Err(e),
            },
            Stmt::AppendNd { name, taus } => self.append_nd_lens(
                name.as_str(),
                taus,
                inputs,
                faults,
            ),
            Stmt::Copy { name, path } => self.copy_lens(
                name.as_str(),
                path.as_str(),
                inputs,
                faults,
            ),
            Stmt::Derive { name, expr, range } => self.derive_lens(
                name.as_str(),
                expr,
                *range,
                in_replay,
                faults,
            ),
            Stmt::Xderive { name, expr, range } => self.xderive_lens(
                name.as_str(),
                expr,
                *range,
                in_replay,
                inputs,
                faults,
            ),
            Stmt::Drop { name } => self.drop_lens(name.as_str(), in_replay, faults),
            Stmt::SetTtl { name, secs } => self.update_ttl(
                name.as_str(),
                Some(*secs),
                in_replay,
                faults,
            ),
            Stmt::UnsetTtl { name } => self.update_ttl(name.as_str(), None, in_replay, faults),
            _ => Err(ExecError::InvalidExpr(owned("db service: not a lens statement"))),
        }
    }
}

} // verus!
