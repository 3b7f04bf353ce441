//! One database: its lenses, its layers and its log, and the statements that change them.

use crate::ast::{texts_view, Expr, Literal, Stmt, StmtV};
use crate::catalog::{acyclic, lists_exactly, reaches, reads, Catalog, Derivations, XderiveDef};
use crate::clock::whole_secs;
use crate::copy::{rows_of, rows_view, Row};
use crate::database::{appended, log_write, Database, DatabaseV, RecordV};
use crate::error::ExecErrorV;
use crate::eval::{materialised, Env};
use crate::faults::INJECTED_WAL_WRITE_ERROR;
use crate::floats::FloatTable;
use crate::inputs::{file_text, Inputs};
use crate::layers::Segment;
use crate::memory::Limits;
use crate::model::{Bound, Layer, Tau};
use crate::names::{listed, lists_keys};
use crate::ops::literal_value_of;
use crate::order::rearranged;
use crate::render::schema_text_of;
use crate::text::decimal;
use crate::value::{Type, Value};
use std::sync::Arc;
use vstd::prelude::*;

verus! {

/// The definition of a materialised lens.
#[verifier::ext_equal]
pub struct DefV {
    pub expr: Expr,
    pub range: Option<(i64, i64)>,
}

/// All that a database holds.
#[verifier::ext_equal]
pub struct StateV {
    pub types: Map<Seq<char>, Type>,
    pub derived: Derivations,
    pub ranges: Map<Seq<char>, (i64, i64)>,
    pub stored: Map<Seq<char>, DefV>,
    pub ttl: Map<Seq<char>, i64>,
    pub axes: Map<Seq<char>, Seq<Seq<char>>>,
    pub db: DatabaseV<Value>,
    pub next_id: u64,
}

/// A database, and how many log writes are left until one is made to fail.
#[verifier::ext_equal]
pub struct World {
    pub state: StateV,
    pub faults: int,
}

pub open spec fn def_view(def: Arc<XderiveDef>) -> DefV {
    DefV { expr: def.expr, range: def.range }
}

/// The state of one database.
#[derive(Debug)]
pub struct DbState {
    pub catalog: Catalog,
    pub db: Database<Value>,
    pub next_layer_id: u64,
}

impl View for DbState {
    type V = StateV;

    open spec fn view(&self) -> StateV {
        StateV {
            types: self.catalog.types@,
            derived: self.catalog.derived@,
            ranges: self.catalog.ranges@,
            stored: self.catalog.stored@.map_values(|def: Arc<XderiveDef>| def_view(def)),
            ttl: self.catalog.ttl@,
            axes: self.catalog.axes@.map_values(|axes: Arc<Vec<String>>| texts_view(axes@)),
            db: self.db@,
            next_id: self.next_layer_id,
        }
    }
}

impl StateV {
    /// No lens is both base and derived, and no derived lens leads to itself.
    pub open spec fn wf(self) -> bool {
        &&& forall|n: Seq<char>| #[trigger]
            self.derived.contains_key(n) ==> !self.types.contains_key(n)
        &&& acyclic(self.derived)
        &&& self.derived.dom().finite()
    }

    pub open spec fn has_lens(self, name: Seq<char>) -> bool {
        self.types.contains_key(name) || self.derived.contains_key(name)
    }

    /// How many axes a lens has; one unless declared otherwise.
    pub open spec fn arity(self, name: Seq<char>) -> nat {
        if self.axes.contains_key(name) {
            self.axes[name].len()
        } else {
            1
        }
    }

    /// What evaluation sees of the database.
    pub open spec fn env(self, inputs: &Inputs) -> Env {
        Env {
            types: self.types,
            derived: self.derived,
            ranges: self.ranges,
            ttl: self.ttl,
            stacks: self.db.stacks,
            floats: inputs.floats,
            now: whole_secs(inputs.now_ms) as i64,
        }
    }

    /// How many derivations evaluation may follow: as many as there are.
    pub open spec fn fuel(self) -> nat {
        self.derived.dom().len()
    }
}

/// The lens is known.
pub open spec fn lens_exists(s: StateV, name: Seq<char>) -> Result<(), ExecErrorV> {
    if s.has_lens(name) {
        Ok(())
    } else {
        Err(ExecErrorV::UnknownLens(name))
    }
}

/// The lens is a base lens.
pub open spec fn is_base_lens(s: StateV, name: Seq<char>, kind: Seq<char>) -> Result<
    (),
    ExecErrorV,
> {
    if s.types.contains_key(name) {
        Ok(())
    } else if s.derived.contains_key(name) {
        Err(ExecErrorV::InvalidExpr(kind + " is only supported for base lenses"@))
    } else {
        Err(ExecErrorV::UnknownLens(name))
    }
}

/// The lens has one axis.
pub open spec fn is_single_axis(s: StateV, name: Seq<char>, kind: Seq<char>) -> Result<
    (),
    ExecErrorV,
> {
    if s.axes.contains_key(name) {
        Err(
            ExecErrorV::InvalidExpr(
                kind + ": lens '"@ + name + "' has "@ + decimal(s.axes[name].len())
                    + " axes; supply one coordinate per axis"@,
            ),
        )
    } else {
        Ok(())
    }
}

/// The complaint about a number of coordinates.
pub open spec fn wrong_arity(name: Seq<char>, declared: nat, supplied: nat) -> ExecErrorV {
    ExecErrorV::InvalidExpr(
        "lens '"@ + name + "' has "@ + decimal(declared) + " axes but the statement supplies "@
            + decimal(supplied),
    )
}

/// The error of a failed log write.
pub open spec fn log_failure() -> ExecErrorV {
    ExecErrorV::Io(INJECTED_WAL_WRITE_ERROR@)
}

pub open spec fn is_ok(ok: bool) -> Result<(), ExecErrorV> {
    if ok {
        Ok(())
    } else {
        Err(log_failure())
    }
}

/// Noting a declaration in the log.
pub open spec fn note(w: World, record: RecordV<Value>) -> (bool, World) {
    let (logged, left) = log_write(w.state.db, w.faults, record);
    match logged {
        None => (false, World { faults: left, ..w }),
        Some(db) => (true, World { state: StateV { db, ..w.state }, faults: left }),
    }
}

pub open spec fn schema_record(stmt: StmtV) -> RecordV<Value> {
    RecordV::Schema(schema_text_of(stmt)->Some_0)
}

/// No name twice.
pub open spec fn all_distinct(names: Seq<Seq<char>>) -> bool {
    forall|i: int, j: int|
        #![trigger names[i], names[j]]
        0 <= i < j < names.len() ==> names[i] != names[j]
}

/// `CREATE LENS`: the error or the world after. A declaration is logged before it takes
/// effect, unless the log is being replayed.
pub open spec fn create_lens_of(
    w: World,
    name: Seq<char>,
    ty: Type,
    axes: Seq<Seq<char>>,
    replay: bool,
) -> (Result<(), ExecErrorV>, World) {
    if w.state.has_lens(name) {
        (Err(ExecErrorV::DuplicateLens(name)), w)
    } else if !all_distinct(axes) {
        (Err(ExecErrorV::InvalidExpr("AXES names must be distinct"@)), w)
    } else {
        let (ok, next) = if replay {
            (true, w)
        } else {
            note(w, schema_record(StmtV::Create { name, ty, axes }))
        };
        if !ok {
            (Err(log_failure()), next)
        } else {
            (
                Ok(()),
                World {
                    state: StateV {
                        types: next.state.types.insert(name, ty),
                        axes: if axes.len() > 1 {
                            next.state.axes.insert(name, axes)
                        } else {
                            next.state.axes
                        },
                        ..next.state
                    },
                    ..next
                },
            )
        }
    }
}

/// `SET TTL LENS` and `UNSET TTL LENS`. The change is logged before it takes effect, unless
/// the log is being replayed.
pub open spec fn update_ttl_of(w: World, name: Seq<char>, secs: Option<i64>, replay: bool) -> (
    Result<(), ExecErrorV>,
    World,
) {
    match lens_exists(w.state, name) {
        Err(e) => (Err(e), w),
        Ok(()) => match is_single_axis(w.state, name, "TTL"@) {
            Err(e) => (Err(e), w),
            Ok(()) => {
                let (ok, next) = if replay {
                    (true, w)
                } else {
                    note(
                        w,
                        schema_record(
                            match secs {
                                Some(secs) => StmtV::SetTtl { name, secs },
                                None => StmtV::UnsetTtl { name },
                            },
                        ),
                    )
                };
                if !ok {
                    (Err(log_failure()), next)
                } else {
                    (
                        Ok(()),
                        World {
                            state: StateV {
                                ttl: match secs {
                                    Some(secs) => next.state.ttl.insert(name, secs),
                                    None => next.state.ttl.remove(name),
                                },
                                ..next.state
                            },
                            ..next
                        },
                    )
                }
            },
        },
    }
}

/// `DROP LENS`. Nothing of the lens stays behind. The drop is logged before it takes effect,
/// unless the log is being replayed.
pub open spec fn drop_lens_of(w: World, name: Seq<char>, replay: bool) -> (
    Result<(), ExecErrorV>,
    World,
) {
    if w.state.has_lens(name) || w.state.stored.contains_key(name) {
        let (ok, next) = if replay {
            (true, w)
        } else {
            note(w, RecordV::Drop(name))
        };
        if !ok {
            (Err(log_failure()), next)
        } else {
            let s = next.state;
            (
                Ok(()),
                World {
                    state: StateV {
                        types: s.types.remove(name),
                        derived: s.derived.remove(name),
                        ranges: s.ranges.remove(name),
                        stored: s.stored.remove(name),
                        ttl: s.ttl.remove(name),
                        axes: s.axes.remove(name),
                        db: DatabaseV {
                            stacks: s.db.stacks.remove(name),
                            limits: Limits { own: s.db.limits.own.remove(name), ..s.db.limits },
                            ..s.db
                        },
                        ..s
                    },
                    ..next
                },
            )
        }
    } else {
        (Err(ExecErrorV::UnknownLens(name)), w)
    }
}

/// A lens of several axes that the expression reads, the first in name order, and the
/// complaint about it.
pub open spec fn refused_axes(s: StateV, e: &Expr, kind: Seq<char>, error: ExecErrorV) -> bool {
    exists|names: Seq<String>, i: int| first_refused(s, e, kind, error, names, i)
}

pub open spec fn first_refused(
    s: StateV,
    e: &Expr,
    kind: Seq<char>,
    error: ExecErrorV,
    names: Seq<String>,
    i: int,
) -> bool {
    &&& lists_exactly(names, |n: Seq<char>| reads(s.derived, e, n))
    &&& 0 <= i < names.len()
    &&& is_single_axis(s, names[i]@, kind) == Err::<(), ExecErrorV>(error)
    &&& forall|j: int| 0 <= j < i ==> !s.axes.contains_key((#[trigger] names[j])@)
}

/// The expression reads lenses of one axis only.
pub open spec fn reads_single_axis(s: StateV, e: &Expr) -> bool {
    forall|n: Seq<char>| #[trigger] reads(s.derived, e, n) ==> !s.axes.contains_key(n)
}

/// The expressions of the derived and of the materialised lenses.
pub open spec fn definitions(s: StateV) -> Derivations {
    Map::new(
        |n: Seq<char>| s.derived.contains_key(n) || s.stored.contains_key(n),
        |n: Seq<char>|
            if s.derived.contains_key(n) {
                s.derived[n]
            } else {
                Arc::new(s.stored[n].expr)
            },
    )
}

/// `DERIVE LENS`. No definition may lead back to itself, through derived and materialised
/// lenses.
pub open spec fn derived_lens(
    w: World,
    name: Seq<char>,
    expr: &Expr,
    range: Option<(i64, i64)>,
    replay: bool,
    r: Result<(), ExecErrorV>,
    after: World,
) -> bool {
    if w.state.has_lens(name) {
        r == Err::<(), ExecErrorV>(ExecErrorV::DuplicateLens(name)) && after == w
    } else if reaches(definitions(w.state), expr, name) {
        r == Err::<(), ExecErrorV>(ExecErrorV::CycleDetected(name)) && after == w
    } else if !reads_single_axis(w.state, expr) {
        r is Err && refused_axes(w.state, expr, "DERIVE"@, r->Err_0) && after == w
    } else {
        let (ok, next) = if replay {
            (true, w)
        } else {
            note(w, schema_record(StmtV::Derive { name, expr: expr@, range }))
        };
        &&& r == is_ok(ok)
        &&& after == if ok {
            World {
                state: StateV {
                    derived: next.state.derived.insert(name, Arc::new(*expr)),
                    ranges: match range {
                        Some(range) => next.state.ranges.insert(name, range),
                        None => next.state.ranges,
                    },
                    ..next.state
                },
                ..next
            }
        } else {
            next
        }
    }
}

/// The error that a row causes in a lens of the given type.
pub open spec fn row_error(lens: Seq<char>, ty: Type, row: Row) -> Option<ExecErrorV> {
    if row.0 >= row.1 {
        Some(ExecErrorV::InvalidRange)
    } else {
        misfit(lens, ty, row.2)
    }
}

/// The error that a value of another type causes. Null fits every lens.
pub open spec fn misfit(lens: Seq<char>, ty: Type, v: Value) -> Option<ExecErrorV> {
    if v.kind() is Some && v.kind() != Some(ty) {
        Some(ExecErrorV::TypeMismatch { lens, expected: ty, got: v.kind_name() })
    } else {
        None
    }
}

/// The first error among rows.
pub open spec fn rows_error(lens: Seq<char>, ty: Type, rows: Seq<Row>) -> Option<ExecErrorV>
    decreases rows.len(),
{
    if rows.len() == 0 {
        None
    } else {
        match rows_error(lens, ty, rows.drop_last()) {
            Some(e) => Some(e),
            None => row_error(lens, ty, rows.last()),
        }
    }
}

/// No two rows overlap.
pub open spec fn rows_apart(rows: Seq<Row>) -> bool {
    forall|i: int, j: int|
        #![trigger rows[i], rows[j]]
        0 <= i < rows.len() && 0 <= j < rows.len() && i != j ==> !(rows[i].0 < rows[j].1
            && rows[j].0 < rows[i].1)
}

/// Whether rows may be written to a lens.
pub open spec fn rows_allowed(s: StateV, name: Seq<char>, rows: Seq<Row>) -> Result<
    (),
    ExecErrorV,
> {
    if s.stored.contains_key(name) {
        Err(ExecErrorV::MaterialisedLens(name))
    } else if !s.types.contains_key(name) {
        Err(ExecErrorV::UnknownLens(name))
    } else if s.axes.contains_key(name) {
        Err(wrong_arity(name, s.axes[name].len(), 1))
    } else {
        match rows_error(name, s.types[name], rows) {
            Some(e) => Err(e),
            None => if rows_apart(rows) {
                Ok(())
            } else {
                Err(ExecErrorV::InvalidRange)
            },
        }
    }
}

/// A value and the box over which it holds.
pub type BoxV = (Seq<(i64, i64)>, Value);

pub open spec fn box_of(tau: Tau<Value>) -> BoxV {
    (tau.coords@.map_values(|b: Bound| (b.lo, b.hi)), tau.value)
}

pub open spec fn row_boxes(rows: Seq<Row>) -> Seq<BoxV> {
    rows.map_values(|row: Row| (seq![(row.0, row.1)], row.2))
}

/// The layer holds the boxes, in some order.
pub open spec fn holds_boxes(layer: Layer<Value>, boxes: Seq<BoxV>) -> bool {
    exists|taus: Seq<Tau<Value>>| #[trigger]
        rearranged(taus, layer.taus@) && taus.map_values(|tau: Tau<Value>| box_of(tau)) == boxes
}

/// The number after a layer number.
pub open spec fn next_number(id: u64) -> u64 {
    if id == u64::MAX {
        0
    } else {
        (id + 1) as u64
    }
}

/// Laying boxes down as one new layer, with the next number and the current time.
pub open spec fn laid(
    w: World,
    name: Seq<char>,
    boxes: Seq<BoxV>,
    now_ms: i64,
    r: Result<(), ExecErrorV>,
    after: World,
) -> bool {
    exists|layer: Layer<Value>| laid_as(w, name, boxes, now_ms, r, after, layer)
}

pub open spec fn laid_as(
    w: World,
    name: Seq<char>,
    boxes: Seq<BoxV>,
    now_ms: i64,
    r: Result<(), ExecErrorV>,
    after: World,
    layer: Layer<Value>,
) -> bool {
    &&& layer.id == w.state.next_id
    &&& layer.written_at == now_ms
    &&& layer.wf()
    &&& holds_boxes(layer, boxes)
    &&& r == is_ok(r is Ok)
    &&& appended(w.state.db, w.faults, name, layer, r is Ok, after.state.db, after.faults)
    &&& after.state == if r is Ok {
        StateV { next_id: next_number(w.state.next_id), db: after.state.db, ..w.state }
    } else {
        w.state
    }
}

/// Filling a materialised lens anew: nothing is laid down where there is nothing to hold.
pub open spec fn filled(
    w: World,
    name: Seq<char>,
    segs: Seq<Segment<Value>>,
    now_ms: i64,
    r: Result<(), ExecErrorV>,
    after: World,
) -> bool {
    if segs.len() == 0 {
        r is Ok && after == w
    } else {
        laid(w, name, row_boxes(segs), now_ms, r, after)
    }
}

/// Computing a materialised lens anew and laying down the result.
pub open spec fn recomputed(
    w: World,
    name: Seq<char>,
    inputs: &Inputs,
    r: Result<(), ExecErrorV>,
    after: World,
) -> bool {
    let def = w.state.stored[name];
    match materialised(w.state.env(inputs), &def.expr, def.range, w.state.fuel()) {
        Err(e) => r == Err::<(), ExecErrorV>(e) && after == w,
        Ok(segs) => filled(w, name, segs, inputs.now_ms, r, after),
    }
}

/// The materialised lens reads one of the lenses, directly or through derived lenses.
pub open spec fn reads_any(s: StateV, view: Seq<char>, lenses: Set<Seq<char>>) -> bool {
    exists|n: Seq<char>| #[trigger]
        reads(s.derived, &s.stored[view].expr, n) && lenses.contains(n)
}

/// The set of the names in a list.
pub open spec fn named(names: Seq<String>) -> Set<Seq<char>> {
    Set::new(|n: Seq<char>| listed(names, n))
}

/// The names but for one of them.
pub open spec fn other_names(names: Seq<String>, i: int) -> Set<Seq<char>> {
    named(names.remove(i))
}

/// The lens reads none of the others that are left.
pub open spec fn is_ready(s: StateV, left: Seq<String>, i: int) -> bool {
    !reads_any(s, left[i]@, other_names(left, i))
}

/// The lens reads something that has changed.
pub open spec fn is_stirred(
    s: StateV,
    left: Seq<String>,
    changed: Set<Seq<char>>,
    i: int,
) -> bool {
    reads_any(s, left[i]@, changed)
}

/// Which of the lenses that are left comes next: the first that reads no other of them. Where
/// each reads another, the first that reads something that has changed; where there is none
/// either, nothing is left to do.
pub open spec fn is_next(
    s: StateV,
    left: Seq<String>,
    changed: Set<Seq<char>>,
    next: Option<int>,
) -> bool {
    match next {
        Some(i) => {
            &&& 0 <= i < left.len()
            &&& if is_ready(s, left, i) {
                forall|j: int| 0 <= j < i ==> !#[trigger] is_ready(s, left, j)
            } else {
                &&& forall|j: int| 0 <= j < left.len() ==> !#[trigger] is_ready(s, left, j)
                &&& is_stirred(s, left, changed, i)
                &&& forall|j: int| 0 <= j < i ==> !#[trigger] is_stirred(s, left, changed, j)
            }
        },
        None => forall|j: int|
            #![trigger is_ready(s, left, j)]
            #![trigger is_stirred(s, left, changed, j)]
            0 <= j < left.len() ==> !is_ready(s, left, j) && !is_stirred(
                s,
                left,
                changed,
                j,
            ),
    }
}

/// A stage of computing materialised lenses anew.
pub struct Refresh {
    pub world: World,
    pub result: Result<(), ExecErrorV>,
    pub next: Option<int>,
}

/// Computing anew, of the lenses that are left, each that reads something that has changed:
/// a lens comes after those that it reads. The first error ends it all.
pub open spec fn refreshed(
    w: World,
    left: Seq<String>,
    changed: Set<Seq<char>>,
    inputs: &Inputs,
    r: Result<(), ExecErrorV>,
    after: World,
) -> bool
    decreases left.len(),
{
    exists|turn: Refresh| #[trigger]
        turned(w, left, changed, inputs, turn) && match turn.next {
            None => r is Ok && after == w,
            Some(i) => if !(0 <= i < left.len()) {
                false
            } else if !is_stirred(w.state, left, changed, i) {
                refreshed(w, left.remove(i), changed, inputs, r, after)
            } else if turn.result is Err {
                r == turn.result && after == turn.world
            } else {
                refreshed(
                    turn.world,
                    left.remove(i),
                    changed.insert(left[i]@),
                    inputs,
                    r,
                    after,
                )
            },
        }
}

/// The lens that comes next has been found, and computed anew where it is to be.
pub open spec fn turned(
    w: World,
    left: Seq<String>,
    changed: Set<Seq<char>>,
    inputs: &Inputs,
    turn: Refresh,
) -> bool {
    &&& is_next(w.state, left, changed, turn.next)
    &&& turn.next matches Some(i) ==> is_stirred(w.state, left, changed, i) ==> recomputed(
        w,
        left[i]@,
        inputs,
        turn.result,
        turn.world,
    )
}

/// Computing anew whatever reads `changed`, directly or in turn.
pub open spec fn dependents_refreshed(
    w: World,
    changed: Seq<char>,
    inputs: &Inputs,
    r: Result<(), ExecErrorV>,
    after: World,
) -> bool {
    exists|names: Seq<String>| #[trigger]
        lists_keys(names, w.state.stored) && refreshed(
            w,
            names,
            set![changed],
            inputs,
            r,
            after,
        )
}

/// The error undoes what was tried: the log could not be written, or an input is missing.
pub open spec fn is_undone(e: ExecErrorV) -> bool {
    e is Io || e.wants_input()
}

/// What is left of a trial: nothing but the log writes that were counted where the log could
/// not be written or an input is missing, and otherwise all that was done.
pub open spec fn after_trial(w: World, r: Result<(), ExecErrorV>, tried: World) -> World {
    if r is Err && is_undone(r->Err_0) {
        World { state: w.state, ..tried }
    } else {
        tried
    }
}

/// `APPEND LENS` on one axis: a new layer, and whatever reads the lens computed anew. Where a
/// log write fails nothing is written. Where a lens cannot be computed anew, what was written
/// before stays.
pub open spec fn rows_written(
    w: World,
    name: Seq<char>,
    rows: Seq<Row>,
    inputs: &Inputs,
    r: Result<(), ExecErrorV>,
    after: World,
) -> bool {
    if rows.len() == 0 {
        r is Ok && after == w
    } else {
        match rows_allowed(w.state, name, rows) {
            Err(e) => r == Err::<(), ExecErrorV>(e) && after == w,
            Ok(()) => exists|tried: World| #[trigger]
                rows_tried(w, name, rows, inputs, r, tried) && after == after_trial(w, r, tried),
        }
    }
}

/// Writing rows up to the first failure.
pub open spec fn rows_tried(
    w: World,
    name: Seq<char>,
    rows: Seq<Row>,
    inputs: &Inputs,
    r: Result<(), ExecErrorV>,
    tried: World,
) -> bool {
    exists|mid: Refresh| #[trigger]
        laid(w, name, row_boxes(rows), inputs.now_ms, mid.result, mid.world) && if mid.result
            is Err {
            r == mid.result && tried == mid.world
        } else {
            dependents_refreshed(mid.world, name, inputs, r, tried)
        }
}

/// The values of literal rows.
pub open spec fn literal_rows(taus: Seq<(i64, i64, Literal)>, floats: &FloatTable) -> Result<
    Seq<Row>,
    ExecErrorV,
>
    decreases taus.len(),
{
    if taus.len() == 0 {
        Ok(Seq::empty())
    } else {
        match literal_rows(taus.drop_last(), floats) {
            Err(e) => Err(e),
            Ok(rows) => match literal_value_of(taus.last().2, floats) {
                Err(e) => Err(e),
                Ok(v) => Ok(rows.push((taus.last().0, taus.last().1, v))),
            },
        }
    }
}

pub type BoxLiteral = (Vec<(i64, i64)>, Literal);

/// The values of literal boxes of one axis.
pub open spec fn flat_rows(name: Seq<char>, taus: Seq<BoxLiteral>, floats: &FloatTable) -> Result<
    Seq<Row>,
    ExecErrorV,
>
    decreases taus.len(),
{
    if taus.len() == 0 {
        Ok(Seq::empty())
    } else {
        match flat_rows(name, taus.drop_last(), floats) {
            Err(e) => Err(e),
            Ok(rows) => if taus.last().0@.len() != 1 {
                Err(wrong_arity(name, 1, taus.last().0@.len()))
            } else {
                match literal_value_of(taus.last().1, floats) {
                    Err(e) => Err(e),
                    Ok(v) => Ok(rows.push((taus.last().0@[0].0, taus.last().0@[0].1, v))),
                }
            },
        }
    }
}

/// The boxes that literal boxes of several axes write.
pub open spec fn checked_boxes(
    name: Seq<char>,
    arity: nat,
    ty: Type,
    taus: Seq<BoxLiteral>,
    floats: &FloatTable,
) -> Result<Seq<BoxV>, ExecErrorV>
    decreases taus.len(),
{
    if taus.len() == 0 {
        Ok(Seq::empty())
    } else {
        match checked_boxes(name, arity, ty, taus.drop_last(), floats) {
            Err(e) => Err(e),
            Ok(boxes) => {
                let coords = taus.last().0@;
                if coords.len() != arity {
                    Err(wrong_arity(name, arity, coords.len()))
                } else {
                    match literal_value_of(taus.last().1, floats) {
                        Err(e) => Err(e),
                        Ok(v) => match misfit(name, ty, v) {
                            Some(e) => Err(e),
                            None => if upright(coords) {
                                Ok(boxes.push((coords, v)))
                            } else {
                                Err(ExecErrorV::InvalidRange)
                            },
                        },
                    }
                }
            },
        }
    }
}

/// Every interval starts before it ends, and there is one.
pub open spec fn upright(coords: Seq<(i64, i64)>) -> bool {
    coords.len() > 0 && forall|i: int|
        0 <= i < coords.len() ==> (#[trigger] coords[i]).0 < coords[i].1
}

/// Two boxes share a point.
pub open spec fn boxes_meet(a: Seq<(i64, i64)>, b: Seq<(i64, i64)>) -> bool {
    a.len() == b.len() && forall|i: int|
        0 <= i < a.len() ==> (#[trigger] a[i]).0 < b[i].1 && b[i].0 < a[i].1
}

pub open spec fn no_boxes_meet(boxes: Seq<BoxV>) -> bool {
    forall|i: int, j: int|
        #![trigger boxes[i], boxes[j]]
        0 <= i < boxes.len() && 0 <= j < boxes.len() && i != j ==> !boxes_meet(
            boxes[i].0,
            boxes[j].0,
        )
}

/// `APPEND LENS` with one interval per axis. A lens of one axis is written as rows are.
/// Boxes that share a point are refused, and use up a layer number.
pub open spec fn boxes_written(
    w: World,
    name: Seq<char>,
    taus: Seq<BoxLiteral>,
    inputs: &Inputs,
    r: Result<(), ExecErrorV>,
    after: World,
) -> bool {
    let s = w.state;
    let arity = s.arity(name);
    if taus.len() == 0 {
        r is Ok && after == w
    } else if arity == 1 {
        match flat_rows(name, taus, &inputs.floats) {
            Err(e) => r == Err::<(), ExecErrorV>(e) && after == w,
            Ok(rows) => rows_written(w, name, rows, inputs, r, after),
        }
    } else if s.stored.contains_key(name) {
        r == Err::<(), ExecErrorV>(ExecErrorV::MaterialisedLens(name)) && after == w
    } else if !s.types.contains_key(name) {
        r == Err::<(), ExecErrorV>(ExecErrorV::UnknownLens(name)) && after == w
    } else {
        match checked_boxes(name, arity, s.types[name], taus, &inputs.floats) {
            Err(e) => r == Err::<(), ExecErrorV>(e) && after == w,
            Ok(boxes) => if no_boxes_meet(boxes) {
                laid(w, name, boxes, inputs.now_ms, r, after)
            } else {
                &&& r == Err::<(), ExecErrorV>(ExecErrorV::InvalidRange)
                &&& after == (World {
                    state: StateV { next_id: next_number(s.next_id), ..s },
                    ..w
                })
            },
        }
    }
}

/// `COPY LENS`: the rows of a file, appended.
pub open spec fn file_copied(
    w: World,
    name: Seq<char>,
    path: Seq<char>,
    inputs: &Inputs,
    r: Result<(), ExecErrorV>,
    after: World,
) -> bool {
    match file_text(inputs.files@, path) {
        Err(e) => r == Err::<(), ExecErrorV>(e) && after == w,
        Ok(text) => match rows_of(text, 1, &inputs.floats) {
            Err(e) => r == Err::<(), ExecErrorV>(e) && after == w,
            Ok(rows) => exists|read: Seq<Row>|
                rows_view(read) == rows && #[trigger] rows_written(
                    w,
                    name,
                    read,
                    inputs,
                    r,
                    after,
                ),
        },
    }
}

/// The type of the first value that has one; integers where none has.
pub open spec fn segments_type(segs: Seq<Segment<Value>>) -> Type
    decreases segs.len(),
{
    if segs.len() == 0 {
        Type::Int
    } else {
        match segs[0].2.kind() {
            Some(ty) => ty,
            None => segments_type(segs.drop_first()),
        }
    }
}

/// `XDERIVE LENS`: a base lens that holds what an expression yields. Where a log write fails
/// nothing is declared. In a replay only the definition is taken up.
pub open spec fn materialised_lens(
    w: World,
    name: Seq<char>,
    expr: &Expr,
    range: Option<(i64, i64)>,
    replay: bool,
    inputs: &Inputs,
    r: Result<(), ExecErrorV>,
    after: World,
) -> bool {
    let s = w.state;
    if replay {
        r is Ok && after == (World {
            state: StateV { stored: s.stored.insert(name, DefV { expr: *expr, range }), ..s },
            ..w
        })
    } else if s.has_lens(name) || s.stored.contains_key(name) {
        r == Err::<(), ExecErrorV>(ExecErrorV::DuplicateLens(name)) && after == w
    } else if reaches(definitions(s), expr, name) {
        r == Err::<(), ExecErrorV>(ExecErrorV::CycleDetected(name)) && after == w
    } else if !reads_single_axis(s, expr) {
        r is Err && refused_axes(s, expr, "XDERIVE"@, r->Err_0) && after == w
    } else {
        match materialised(s.env(inputs), expr, range, s.fuel()) {
            Err(e) => r == Err::<(), ExecErrorV>(e) && after == w,
            Ok(segs) => exists|tried: World| #[trigger]
                materialising(w, name, expr, range, segs, inputs, r, tried) && after
                    == after_trial(w, r, tried),
        }
    }
}

/// Declaring a materialised lens and filling it, up to the first failure.
pub open spec fn materialising(
    w: World,
    name: Seq<char>,
    expr: &Expr,
    range: Option<(i64, i64)>,
    segs: Seq<Segment<Value>>,
    inputs: &Inputs,
    r: Result<(), ExecErrorV>,
    tried: World,
) -> bool {
    let ty = segments_type(segs);
    let (ok, one) = note(w, schema_record(StmtV::Create { name, ty, axes: Seq::empty() }));
    let (both, two) = note(one, schema_record(StmtV::Xderive { name, expr: expr@, range }));
    if !ok {
        r == Err::<(), ExecErrorV>(log_failure()) && tried == one
    } else if !both {
        r == Err::<(), ExecErrorV>(log_failure()) && tried == two
    } else {
        filled(
            World {
                state: StateV {
                    types: two.state.types.insert(name, ty),
                    stored: two.state.stored.insert(name, DefV { expr: *expr, range }),
                    ..two.state
                },
                ..two
            },
            name,
            segs,
            inputs.now_ms,
            r,
            tried,
        )
    }
}

/// What a statement on the lenses of a database does.
pub open spec fn lens_changed(
    w: World,
    stmt: &Stmt,
    replay: bool,
    inputs: &Inputs,
    r: Result<(), ExecErrorV>,
    after: World,
) -> bool {
    match *stmt {
        Stmt::Create { name, ty, axes } => (r, after) == create_lens_of(
            w,
            name@,
            ty,
            texts_view(axes@),
            replay,
        ),
        Stmt::Append { name, taus } => match literal_rows(taus@, &inputs.floats) {
            Err(e) => r == Err::<(), ExecErrorV>(e) && after == w,
            Ok(rows) => rows_written(w, name@, rows, inputs, r, after),
        },
        Stmt::BatchAppend { name, taus } => match literal_rows(taus@, &inputs.floats) {
            Err(e) => r == Err::<(), ExecErrorV>(e) && after == w,
            Ok(rows) => rows_written(w, name@, rows, inputs, r, after),
        },
        Stmt::AppendNd { name, taus } => boxes_written(w, name@, taus@, inputs, r, after),
        Stmt::Copy { name, path } => file_copied(w, name@, path@, inputs, r, after),
        Stmt::Derive { name, expr, range } => derived_lens(
            w,
            name@,
            &expr,
            range,
            replay,
            r,
            after,
        ),
        Stmt::Xderive { name, expr, range } => materialised_lens(
            w,
            name@,
            &expr,
            range,
            replay,
            inputs,
            r,
            after,
        ),
        Stmt::Drop { name } => (r, after) == drop_lens_of(w, name@, replay),
        Stmt::SetTtl { name, secs } => (r, after) == update_ttl_of(w, name@, Some(secs), replay),
        Stmt::UnsetTtl { name } => (r, after) == update_ttl_of(w, name@, None, replay),
        _ => r == Err::<(), ExecErrorV>(
            ExecErrorV::InvalidExpr("db service: not a lens statement"@),
        ) && after == w,
    }
}

/// The statement writes rows or boxes to a lens.
pub open spec fn writes_rows(stmt: &Stmt) -> bool {
    stmt is Append || stmt is BatchAppend || stmt is AppendNd || stmt is Copy
}

/// A statement on lenses that fails changes nothing. Of a statement that writes rows this is
/// said where the log could not be written.
pub proof fn law_failed_statement_changes_nothing(
    w: World,
    stmt: &Stmt,
    replay: bool,
    inputs: &Inputs,
    r: Result<(), ExecErrorV>,
    after: World,
)
    requires
        lens_changed(w, stmt, replay, inputs, r, after),
        r is Err,
        is_undone(r->Err_0) || !writes_rows(stmt),
    ensures
        after.state == w.state,
{
}

/// `BATCH APPEND` does what `APPEND` does with the same rows.
pub proof fn law_batch_is_append(
    w: World,
    name: String,
    taus: Vec<(i64, i64, Literal)>,
    replay: bool,
    inputs: &Inputs,
    r: Result<(), ExecErrorV>,
    after: World,
)
    ensures
        lens_changed(w, &Stmt::BatchAppend { name, taus }, replay, inputs, r, after)
            == lens_changed(w, &Stmt::Append { name, taus }, replay, inputs, r, after),
{
}

} // verus!
