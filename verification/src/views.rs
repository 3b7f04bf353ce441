//! What materialised lenses hold after a write: the values of their expressions.

use crate::ast::{Expr, StmtV};
use crate::catalog::{
    lemma_more_derivations, lemma_reaches_through, mentions, reaches, reaches_in, reads,
    Derivations,
};
use crate::clock::clamp;
use crate::copy::Row;
use crate::database::{lemma_agree_chain, log_write, settled, with_write, RecordV};
use crate::error::ExecErrorV;
use crate::eval::{
    agg_over, cutoffs, depth, domain_of, edges, ends, expr_at, expr_bounds, expr_sampler, extents,
    greater, grid, lens_at, lens_bounds, lesser, materialised, read_layer, samples, Env,
};
use crate::inputs::Inputs;
use crate::layers::{agree, newest, Segment};
use crate::memory::{law_append_is_seen, stack_of};
use crate::model::{lemma_hit_is_only, Bound, Datum, Layer, Tau};
use crate::names::{listed, lists_keys};
use crate::ops::literal_value_of;
use crate::order::{linked, rearranged};
use crate::restart::equal_schema;
use crate::restore::tidy;
use crate::state::{
    after_trial, box_of, definitions, dependents_refreshed, is_ready, is_stirred, is_undone, laid,
    laid_as, materialised_lens, materialising, named, note, other_names, reads_any, recomputed,
    refreshed, row_boxes, rows_allowed, rows_tried, rows_written, schema_record, segments_type, turned, DefV, Refresh,
    StateV, World,
};
use crate::value::Value;
use crate::windows::{env_wf, in_segment, law_materialised_shows_expression, steady};
use vstd::prelude::*;

verus! {

/// The two differ in their base lenses and their layers at most.
pub open spec fn same_but_layers(a: Env, b: Env) -> bool {
    &&& b == (Env { types: b.types, stacks: b.stacks, ..a })
    &&& forall|n: Seq<char>| #[trigger] a.types.contains_key(n) ==> !a.derived.contains_key(n)
    &&& forall|n: Seq<char>| #[trigger] b.types.contains_key(n) ==> !b.derived.contains_key(n)
}

/// The lens has the same layers in both.
pub open spec fn layers_alike(a: Env, b: Env, n: Seq<char>) -> bool {
    stack_of(a.stacks, n) == stack_of(b.stacks, n) && a.types.contains_key(n)
        == b.types.contains_key(n)
}

/// The expression reads the same layers in both.
pub open spec fn reads_alike(a: Env, b: Env, e: &Expr) -> bool {
    forall|n: Seq<char>| #[trigger] reads(a.derived, e, n) ==> layers_alike(a, b, n)
}

/// Looking at the lens reads the same layers in both.
pub open spec fn lens_alike(a: Env, b: Env, lens: Seq<char>) -> bool {
    if a.derived.contains_key(lens) {
        reads_alike(a, b, &*a.derived[lens])
    } else {
        layers_alike(a, b, lens)
    }
}

/// What a part of an expression refers to, the expression leads to.
proof fn lemma_part_reads(derived: Derivations, part: &Expr, e: &Expr, n: Seq<char>)
    requires
        forall|x: Seq<char>| #[trigger] mentions(part, x) ==> mentions(e, x),
        reads(derived, part, n),
    ensures
        reads(derived, e, n),
{
    let k = choose|k: nat| reaches_in(derived, part, n, k);
    assert(reaches_in(derived, e, n, k));
}

proof fn lemma_parts_alike(a: Env, b: Env, part: &Expr, e: &Expr)
    requires
        reads_alike(a, b, e),
        forall|x: Seq<char>| #[trigger] mentions(part, x) ==> mentions(e, x),
    ensures
        reads_alike(a, b, part),
{
    assert forall|n: Seq<char>| #[trigger] reads(a.derived, part, n) implies layers_alike(
        a,
        b,
        n,
    ) by {
        lemma_part_reads(a.derived, part, e, n);
    }
}

/// A lens that an expression refers to.
proof fn lemma_mentioned_alike(a: Env, b: Env, e: &Expr, lens: Seq<char>)
    requires
        reads_alike(a, b, e),
        mentions(e, lens),
    ensures
        lens_alike(a, b, lens),
{
    if a.derived.contains_key(lens) {
        let def = &*a.derived[lens];
        assert forall|n: Seq<char>| #[trigger] reads(a.derived, def, n) implies layers_alike(
            a,
            b,
            n,
        ) by {
            let k = choose|k: nat| reaches_in(a.derived, def, n, k);
            assert(reaches_in(a.derived, e, n, (k + 1) as nat));
            assert(reads(a.derived, e, n));
        }
    } else {
        assert(reaches_in(a.derived, e, lens, 0));
        assert(reads(a.derived, e, lens));
    }
}

proof fn lemma_lens_bounds_alike(a: Env, b: Env, lens: Seq<char>, start: i64, end: i64, fuel: nat)
    requires
        same_but_layers(a, b),
        lens_alike(a, b, lens),
    ensures
        lens_bounds(a, lens, start, end, fuel) == lens_bounds(b, lens, start, end, fuel),
    decreases fuel, 0int, 0int,
{
    assert(cutoffs(a, lens, start, end) =~= cutoffs(b, lens, start, end));
    assert(a.types.contains_key(lens) == b.types.contains_key(lens));
    if a.types.contains_key(lens) {
        assert(ends(a, lens, start, end) =~= ends(b, lens, start, end));
    }
    if !a.types.contains_key(lens) && a.derived.contains_key(lens) && fuel > 0 {
        lemma_expr_bounds_alike(a, b, &*a.derived[lens], start, end, (fuel - 1) as nat);
        assert(edges(a, lens, start, end) =~= edges(b, lens, start, end));
    }
}

proof fn lemma_expr_bounds_alike(a: Env, b: Env, e: &Expr, start: i64, end: i64, fuel: nat)
    requires
        same_but_layers(a, b),
        reads_alike(a, b, e),
    ensures
        expr_bounds(a, e, start, end, fuel) == expr_bounds(b, e, start, end, fuel),
    decreases fuel, 1int, depth(e),
{
    match *e {
        Expr::Lit(_) => {},
        Expr::Ident(name) => {
            lemma_mentioned_alike(a, b, e, name@);
            lemma_lens_bounds_alike(a, b, name@, start, end, fuel);
        },
        Expr::Unary { expr, .. } => {
            lemma_parts_alike(a, b, &expr, e);
            lemma_expr_bounds_alike(a, b, &expr, start, end, fuel);
        },
        Expr::Binary { lhs, rhs, .. } => {
            lemma_parts_alike(a, b, &lhs, e);
            lemma_parts_alike(a, b, &rhs, e);
            lemma_expr_bounds_alike(a, b, &lhs, start, end, fuel);
            lemma_expr_bounds_alike(a, b, &rhs, start, end, fuel);
        },
        Expr::Agg { lens, rel_start, rel_end, .. } => {
            lemma_mentioned_alike(a, b, e, lens@);
            let lo = clamp(start + lesser(rel_start, rel_end));
            let hi = clamp(end + greater(rel_start, rel_end));
            lemma_lens_bounds_alike(a, b, lens@, lo, hi, fuel);
        },
    }
}

proof fn lemma_lens_at_alike(a: Env, b: Env, lens: Seq<char>, t: i64, fuel: nat)
    requires
        same_but_layers(a, b),
        lens_alike(a, b, lens),
    ensures
        lens_at(a, lens, t, fuel) == lens_at(b, lens, t, fuel),
    decreases fuel, 0int, 0int,
{
    assert(a.types.contains_key(lens) == b.types.contains_key(lens));
    if !a.types.contains_key(lens) && a.derived.contains_key(lens) && fuel > 0 {
        lemma_expr_at_alike(a, b, &*a.derived[lens], t, (fuel - 1) as nat);
    }
}

/// An expression that reads the same layers has the same values.
proof fn lemma_expr_at_alike(a: Env, b: Env, e: &Expr, t: i64, fuel: nat)
    requires
        same_but_layers(a, b),
        reads_alike(a, b, e),
    ensures
        expr_at(a, e, t, fuel) == expr_at(b, e, t, fuel),
    decreases fuel, 3int, depth(e),
{
    assert(a.floats == b.floats);
    match *e {
        Expr::Lit(l) => {
            assert(literal_value_of(l, &a.floats) == literal_value_of(l, &b.floats));
        },
        Expr::Ident(name) => {
            lemma_mentioned_alike(a, b, e, name@);
            lemma_lens_at_alike(a, b, name@, t, fuel);
        },
        Expr::Unary { expr, .. } => {
            lemma_parts_alike(a, b, &expr, e);
            lemma_expr_at_alike(a, b, &expr, t, fuel);
        },
        Expr::Binary { lhs, rhs, .. } => {
            lemma_parts_alike(a, b, &lhs, e);
            lemma_parts_alike(a, b, &rhs, e);
            lemma_expr_at_alike(a, b, &lhs, t, fuel);
            lemma_expr_at_alike(a, b, &rhs, t, fuel);
        },
        Expr::Agg { func, lens, rel_start, rel_end } => {
            lemma_mentioned_alike(a, b, e, lens@);
            let start = clamp(t + rel_start);
            let end = clamp(t + rel_end);
            lemma_lens_bounds_alike(a, b, lens@, start, end, fuel);
            if let Ok(bounds) = lens_bounds(a, lens@, start, end, fuel) {
                let g = grid(bounds, start, end);
                lemma_samples_alike(a, b, lens@, g, (g.len() - 1) as nat, fuel);
            }
            assert(agg_over(a, lens@, func, start, end, fuel) == agg_over(
                b,
                lens@,
                func,
                start,
                end,
                fuel,
            ));
        },
    }
}

proof fn lemma_samples_alike(a: Env, b: Env, lens: Seq<char>, g: Seq<i64>, k: nat, fuel: nat)
    requires
        same_but_layers(a, b),
        lens_alike(a, b, lens),
    ensures
        samples(a, lens, g, k, fuel) == samples(b, lens, g, k, fuel),
    decreases fuel, 1int, k,
{
    if k > 0 {
        lemma_samples_alike(a, b, lens, g, (k - 1) as nat, fuel);
        lemma_lens_at_alike(a, b, lens, g[k - 1], fuel);
    }
}

proof fn lemma_domain_alike(a: Env, b: Env, e: &Expr)
    requires
        same_but_layers(a, b),
        reads_alike(a, b, e),
    ensures
        domain_of(a, e) == domain_of(b, e),
{
    assert forall|x: (i64, i64)| extents(a, e).contains(x) == extents(b, e).contains(x) by {
        assert forall|lens: Seq<char>, i: int| #[trigger] read_layer(a, e, lens, i) implies
            read_layer(b, e, lens, i) && stack_of(a.stacks, lens) == stack_of(b.stacks, lens) by {}
        assert forall|lens: Seq<char>, i: int| #[trigger] read_layer(b, e, lens, i) implies
            read_layer(a, e, lens, i) && stack_of(a.stacks, lens) == stack_of(b.stacks, lens) by {}
    }
    assert(extents(a, e) =~= extents(b, e));
}

/// An expression that reads the same layers fills a materialised lens with the same values.
pub proof fn lemma_materialised_alike(
    a: Env,
    b: Env,
    e: &Expr,
    range: Option<(i64, i64)>,
    fuel: nat,
)
    requires
        same_but_layers(a, b),
        reads_alike(a, b, e),
    ensures
        materialised(a, e, range, fuel) == materialised(b, e, range, fuel),
{
    lemma_domain_alike(a, b, e);
    let window = match range {
        Some(w) => Some(w),
        None => domain_of(a, e),
    };
    if let Some((start, end)) = window {
        lemma_expr_bounds_alike(a, b, e, start, end, fuel);
        let (f, g) = (expr_sampler(a, e, fuel), expr_sampler(b, e, fuel));
        assert forall|t: i64| #[trigger] f(t) == g(t) by {
            lemma_expr_at_alike(a, b, e, t, fuel);
        }
        assert(f =~= g);
    }
}

/// What was just laid down is seen.
pub proof fn lemma_laid_seen(
    w: World,
    name: Seq<char>,
    segs: Seq<Segment<Value>>,
    now_ms: i64,
    r: Result<(), ExecErrorV>,
    after: World,
)
    requires
        laid(w, name, row_boxes(segs), now_ms, r, after),
        r is Ok,
    ensures
        forall|i: int, t: i64| #[trigger]
            in_segment(segs, i, t) ==> agree(
                newest(stack_of(after.state.db.stacks, name), seq![t], None),
                Some(segs[i].2),
            ),
        forall|m: Seq<char>|
            m != name ==> #[trigger] stack_of(after.state.db.stacks, m) == stack_of(
                w.state.db.stacks,
                m,
            ),
        equal_schema(w.state, after.state),
{
    let boxes = row_boxes(segs);
    let layer = choose|layer: Layer<Value>| laid_as(w, name, boxes, now_ms, r, after, layer);
    let taus = choose|taus: Seq<Tau<Value>>| #[trigger]
        rearranged(taus, layer.taus@) && taus.map_values(|tau: Tau<Value>| box_of(tau)) == boxes;
    let (from, to) = choose|from: Seq<int>, to: Seq<int>| linked(taus, layer.taus@, from, to);
    let before = stack_of(w.state.db.stacks, name);
    let top = stack_of(after.state.db.stacks, name);
    let (logged, left) = log_write(
        w.state.db,
        w.faults,
        RecordV::<Value>::Layer(name, layer),
    );
    assert(settled(with_write(logged->0), name, layer, after.state.db));
    assert forall|i: int, t: i64| #[trigger] in_segment(segs, i, t) implies agree(
        newest(top, seq![t], None),
        Some(segs[i].2),
    ) by {
        let mapped = taus.map_values(|tau: Tau<Value>| box_of(tau));
        assert(mapped.len() == taus.len() && boxes.len() == segs.len());
        assert(mapped[i] == boxes[i] && mapped[i] == box_of(taus[i]));
        assert(box_of(taus[i]) == (seq![(segs[i].0, segs[i].1)], segs[i].2));
        let coords = taus[i].coords@.map_values(|b: Bound| (b.lo, b.hi));
        assert(coords == seq![(segs[i].0, segs[i].1)]);
        assert(coords.len() == 1 && coords[0] == (segs[i].0, segs[i].1));
        assert(taus[i].coords@[0].lo == segs[i].0 && taus[i].coords@[0].hi == segs[i].1);
        let p = to[i];
        assert(from[p] == i);
        assert(layer.taus@[p] == taus[i]);
        assert(layer.taus@[p].covers(seq![t]));
        lemma_hit_is_only(layer.taus@, seq![t], p);
        assert(before.push(layer).last() == layer);
        assert(newest(before.push(layer), seq![t], None) == Some(segs[i].2));
        law_append_is_seen(
            before,
            layer,
            (logged->0).limits.of(name),
            top,
            seq![t],
            None,
        );
    }
}

/// A materialised lens shows what its expression yields now.
pub open spec fn fresh(s: StateV, inputs: &Inputs, view: Seq<char>) -> bool {
    let def = s.stored[view];
    let yields = materialised(s.env(inputs), &def.expr, def.range, s.fuel());
    &&& yields is Ok
    &&& forall|i: int, t: i64| #[trigger]
        in_segment(yields->Ok_0, i, t) ==> agree(
            newest(stack_of(s.db.stacks, view), seq![t], None),
            Some(yields->Ok_0[i].2),
        )
}

/// The materialised lens reads the lens, directly, through derived lenses or through at most
/// `k` other materialised lenses.
pub open spec fn depends_in(s: StateV, view: Seq<char>, lens: Seq<char>, k: nat) -> bool
    decreases k,
{
    ||| reads(s.derived, &s.stored[view].expr, lens)
    ||| k > 0 && exists|m: Seq<char>| #[trigger]
        reads(s.derived, &s.stored[view].expr, m) && s.stored.contains_key(m) && depends_in(
            s,
            m,
            lens,
            (k - 1) as nat,
        )
}

pub open spec fn depends(s: StateV, view: Seq<char>, lens: Seq<char>) -> bool {
    exists|k: nat| depends_in(s, view, lens, k)
}

/// Every materialised lens reads only such of the others as have a lower rank.
spec fn ranked(s: StateV, rank: spec_fn(Seq<char>) -> nat) -> bool {
    forall|n: Seq<char>, m: Seq<char>|
        s.stored.contains_key(n) && s.stored.contains_key(m) && #[trigger] reads(
            s.derived,
            &s.stored[n].expr,
            m,
        ) ==> rank(m) < rank(n)
}

proof fn lemma_depends_alike(a: StateV, b: StateV, view: Seq<char>, lens: Seq<char>, k: nat)
    requires
        equal_schema(a, b),
    ensures
        depends_in(a, view, lens, k) == depends_in(b, view, lens, k),
    decreases k,
{
    if k > 0 {
        let j = (k - 1) as nat;
        let e = &a.stored[view].expr;
        assert forall|m: Seq<char>| #[trigger] reads(a.derived, e, m) implies depends_in(
            a,
            m,
            lens,
            j,
        ) == depends_in(b, m, lens, j) by {
            lemma_depends_alike(a, b, m, lens, j);
        }
    }
}

/// One of the names has the lowest rank.
proof fn lemma_lowest(left: Seq<String>, rank: spec_fn(Seq<char>) -> nat) -> (i: int)
    requires
        left.len() > 0,
    ensures
        0 <= i < left.len(),
        forall|j: int| 0 <= j < left.len() ==> rank(left[i]@) <= rank((#[trigger] left[j])@),
    decreases left.len(),
{
    if left.len() == 1 {
        0
    } else {
        let less = left.drop_last();
        let i = lemma_lowest(less, rank);
        assert forall|j: int| 0 <= j < less.len() implies rank(left[i]@) <= rank(
            (#[trigger] left[j])@,
        ) by {
            assert(less[j] == left[j]);
        }
        if rank(left[i]@) <= rank(left.last()@) {
            i
        } else {
            left.len() - 1
        }
    }
}

/// Some lens that is left reads none of the others.
proof fn lemma_some_ready(s: StateV, left: Seq<String>, rank: spec_fn(Seq<char>) -> nat) -> (i: int)
    requires
        left.len() > 0,
        ranked(s, rank),
        forall|j: int| 0 <= j < left.len() ==> s.stored.contains_key((#[trigger] left[j])@),
    ensures
        0 <= i < left.len(),
        is_ready(s, left, i),
{
    let i = lemma_lowest(left, rank);
    if reads_any(s, left[i]@, other_names(left, i)) {
        let n = choose|n: Seq<char>| #[trigger]
            reads(s.derived, &s.stored[left[i]@].expr, n) && other_names(left, i).contains(n);
        let rest = left.remove(i);
        let k = choose|k: int| 0 <= k < rest.len() && (#[trigger] rest[k])@ == n;
        let j = if k < i {
            k
        } else {
            k + 1
        };
        assert(left[j]@ == n);
        assert(s.stored.contains_key(left[i]@));
    }
    i
}

/// Names are listed once.
spec fn once(left: Seq<String>) -> bool {
    forall|i: int, j: int|
        #![trigger left[i], left[j]]
        0 <= i < left.len() && 0 <= j < left.len() && left[i]@ == left[j]@ ==> i == j
}

proof fn lemma_removed(left: Seq<String>, i: int, n: Seq<char>)
    requires
        once(left),
        0 <= i < left.len(),
    ensures
        once(left.remove(i)),
        listed(left.remove(i), n) <==> listed(left, n) && n != left[i]@,
{
    let rest = left.remove(i);
    assert forall|p: int, q: int|
        #![trigger rest[p], rest[q]]
        0 <= p < rest.len() && 0 <= q < rest.len() && rest[p]@ == rest[q]@ implies p == q by {
        let (a, b) = (
            if p < i {
                p
            } else {
                p + 1
            },
            if q < i {
                q
            } else {
                q + 1
            },
        );
        assert(left[a] == rest[p] && left[b] == rest[q]);
    }
    if listed(rest, n) {
        let k = choose|k: int| 0 <= k < rest.len() && (#[trigger] rest[k])@ == n;
        let j = if k < i {
            k
        } else {
            k + 1
        };
        assert(left[j]@ == n);
        assert(left[j]@ == left[i]@ ==> j == i);
    }
    if listed(left, n) && n != left[i]@ {
        let k = choose|k: int| 0 <= k < left.len() && (#[trigger] left[k])@ == n;
        let j = if k < i {
            k
        } else {
            k - 1
        };
        assert(rest[j]@ == n);
    }
}

/// What holds while materialised lenses are computed anew: those that are done read none of
/// those that are left, and those of them that changed are fresh.
spec fn on_course(
    s: StateV,
    inputs: &Inputs,
    left: Seq<String>,
    changed: Set<Seq<char>>,
    lens: Seq<char>,
) -> bool {
    &&& once(left)
    &&& forall|i: int| 0 <= i < left.len() ==> s.stored.contains_key((#[trigger] left[i])@)
    &&& forall|i: int| 0 <= i < left.len() ==> !changed.contains((#[trigger] left[i])@)
    &&& changed.contains(lens)
    &&& forall|n: Seq<char>| #[trigger]
        s.stored.contains_key(n) && depends(s, n, lens) ==> listed(left, n) || changed.contains(n)
    &&& forall|n: Seq<char>| #[trigger]
        s.stored.contains_key(n) && !listed(left, n) ==> !reads_any(s, n, named(left))
    &&& forall|n: Seq<char>| #[trigger]
        s.stored.contains_key(n) && !listed(left, n) && changed.contains(n) ==> fresh(s, inputs, n)
}

/// A lens that depends on another reads it, or a materialised lens that does.
proof fn lemma_depends_step(s: StateV, view: Seq<char>, lens: Seq<char>)
    requires
        depends(s, view, lens),
    ensures
        reads(s.derived, &s.stored[view].expr, lens) || exists|m: Seq<char>| #[trigger]
            reads(s.derived, &s.stored[view].expr, m) && s.stored.contains_key(m) && depends(
                s,
                m,
                lens,
            ),
{
    let k = choose|k: nat| depends_in(s, view, lens, k);
    if !reads(s.derived, &s.stored[view].expr, lens) {
        let m = choose|m: Seq<char>| #[trigger]
            reads(s.derived, &s.stored[view].expr, m) && s.stored.contains_key(m) && depends_in(
                s,
                m,
                lens,
                (k - 1) as nat,
            );
        assert(depends(s, m, lens));
    }
}

/// A lens that is fresh stays so while one that it does not read is computed anew.
proof fn lemma_stays_fresh(a: StateV, b: StateV, inputs: &Inputs, view: Seq<char>, name: Seq<char>)
    requires
        a.wf(),
        equal_schema(a, b),
        view != name,
        !reads(a.derived, &a.stored[view].expr, name),
        forall|m: Seq<char>|
            m != name ==> #[trigger] stack_of(b.db.stacks, m) == stack_of(a.db.stacks, m),
        fresh(a, inputs, view),
    ensures
        fresh(b, inputs, view),
{
    let def = a.stored[view];
    let (x, y) = (a.env(inputs), b.env(inputs));
    assert(same_but_layers(x, y)) by {
        assert forall|n: Seq<char>| #[trigger] x.types.contains_key(n) implies
            !x.derived.contains_key(n) by {}
    }
    assert forall|n: Seq<char>| #[trigger] reads(x.derived, &def.expr, n) implies layers_alike(
        x,
        y,
        n,
    ) by {
        assert(stack_of(b.db.stacks, n) == stack_of(a.db.stacks, n));
    }
    lemma_materialised_alike(x, y, &def.expr, def.range, a.fuel());
    assert(stack_of(b.db.stacks, view) == stack_of(a.db.stacks, view));
}

/// A lens that was just computed anew is fresh.
proof fn lemma_recomputed_fresh(
    w: World,
    name: Seq<char>,
    inputs: &Inputs,
    r: Result<(), ExecErrorV>,
    after: World,
)
    requires
        w.state.wf(),
        recomputed(w, name, inputs, r, after),
        r is Ok,
        !reads(w.state.derived, &w.state.stored[name].expr, name),
    ensures
        fresh(after.state, inputs, name),
        equal_schema(w.state, after.state),
        forall|m: Seq<char>|
            m != name ==> #[trigger] stack_of(after.state.db.stacks, m) == stack_of(
                w.state.db.stacks,
                m,
            ),
{
    let (a, b) = (w.state, after.state);
    let def = a.stored[name];
    let segs = materialised(a.env(inputs), &def.expr, def.range, a.fuel())->Ok_0;
    if segs.len() > 0 {
        lemma_laid_seen(w, name, segs, inputs.now_ms, r, after);
        let (x, y) = (a.env(inputs), b.env(inputs));
        assert(same_but_layers(x, y)) by {
            assert forall|n: Seq<char>| #[trigger] x.types.contains_key(n) implies
                !x.derived.contains_key(n) by {}
        }
        assert forall|n: Seq<char>| #[trigger] reads(x.derived, &def.expr, n) implies layers_alike(
            x,
            y,
            n,
        ) by {
            assert(n != name);
            assert(stack_of(b.db.stacks, n) == stack_of(a.db.stacks, n));
        }
        lemma_materialised_alike(x, y, &def.expr, def.range, a.fuel());
    }
}

/// One turn keeps the course.
proof fn lemma_on_course(
    a: StateV,
    b: StateV,
    inputs: &Inputs,
    left: Seq<String>,
    i: int,
    changed: Set<Seq<char>>,
    lens: Seq<char>,
    anew: bool,
)
    requires
        a.wf(),
        on_course(a, inputs, left, changed, lens),
        0 <= i < left.len(),
        !reads(a.derived, &a.stored[left[i]@].expr, left[i]@),
        is_ready(a, left, i),
        anew == is_stirred(a, left, changed, i),
        if anew {
            &&& fresh(b, inputs, left[i]@)
            &&& equal_schema(a, b)
            &&& forall|m: Seq<char>|
                m != left[i]@ ==> #[trigger] stack_of(b.db.stacks, m) == stack_of(a.db.stacks, m)
        } else {
            b == a
        },
    ensures
        on_course(
            b,
            inputs,
            left.remove(i),
            if anew {
                changed.insert(left[i]@)
            } else {
                changed
            },
            lens,
        ),
{
    let name = left[i]@;
    let rest = left.remove(i);
    let next = if anew {
        changed.insert(name)
    } else {
        changed
    };
    lemma_removed(left, i, name);
    assert(listed(left, name));
    assert forall|k: int| 0 <= k < rest.len() implies b.stored.contains_key((#[trigger] rest[k])@)
        && !next.contains(rest[k]@) by {
        let j = if k < i {
            k
        } else {
            k + 1
        };
        assert(left[j] == rest[k]);
        assert(left[j]@ == left[i]@ ==> j == i);
    }
    assert forall|n: Seq<char>| #[trigger] b.stored.contains_key(n) && depends(b, n, lens) implies
        listed(rest, n) || next.contains(n) by {
        let k = choose|k: nat| depends_in(b, n, lens, k);
        lemma_depends_alike(a, b, n, lens, k);
        assert(depends(a, n, lens));
        assert(a.stored.contains_key(n));
        lemma_removed(left, i, n);
        if n == name && !anew {
            lemma_depends_step(a, n, lens);
            if !reads(a.derived, &a.stored[n].expr, lens) {
                let m = choose|m: Seq<char>| #[trigger]
                    reads(a.derived, &a.stored[n].expr, m) && a.stored.contains_key(m) && depends(
                        a,
                        m,
                        lens,
                    );
                assert(listed(left, m) || changed.contains(m));
                if listed(left, m) && m != name {
                    lemma_removed(left, i, m);
                    assert(other_names(left, i).contains(m));
                    assert(reads_any(a, name, other_names(left, i)));
                }
                assert(m != name);
                assert(reads_any(a, name, changed));
            } else {
                assert(reads_any(a, name, changed));
            }
        }
    }
    assert forall|n: Seq<char>| #[trigger] b.stored.contains_key(n) && !listed(rest, n) implies
        !reads_any(b, n, named(rest)) by {
        lemma_removed(left, i, n);
        assert(a.stored.contains_key(n));
        if reads_any(b, n, named(rest)) {
            let m = choose|m: Seq<char>| #[trigger]
                reads(b.derived, &b.stored[n].expr, m) && named(rest).contains(m);
            lemma_removed(left, i, m);
            assert(reads(a.derived, &a.stored[n].expr, m));
            if n == name {
                assert(other_names(left, i).contains(m));
                assert(reads_any(a, name, other_names(left, i)));
            } else {
                assert(named(left).contains(m));
                assert(reads_any(a, n, named(left)));
            }
        }
    }
    assert forall|n: Seq<char>| #[trigger]
        b.stored.contains_key(n) && !listed(rest, n) && next.contains(n) implies fresh(
        b,
        inputs,
        n,
    ) by {
        lemma_removed(left, i, n);
        assert(a.stored.contains_key(n));
        if n == name {
            assert(!changed.contains(left[i]@));
        } else {
            assert(fresh(a, inputs, n));
            if anew {
                if reads(a.derived, &a.stored[n].expr, name) {
                    assert(named(left).contains(name));
                    assert(reads_any(a, n, named(left)));
                }
                lemma_stays_fresh(a, b, inputs, n, name);
            }
        }
    }
}

/// Once all is done, every materialised lens that depends on what changed is fresh.
proof fn lemma_refreshed_fresh(
    w: World,
    left: Seq<String>,
    changed: Set<Seq<char>>,
    inputs: &Inputs,
    r: Result<(), ExecErrorV>,
    after: World,
    lens: Seq<char>,
    rank: spec_fn(Seq<char>) -> nat,
)
    requires
        w.state.wf(),
        ranked(w.state, rank),
        on_course(w.state, inputs, left, changed, lens),
        refreshed(w, left, changed, inputs, r, after),
        r is Ok,
    ensures
        equal_schema(w.state, after.state),
        forall|n: Seq<char>| #[trigger]
            w.state.stored.contains_key(n) && depends(w.state, n, lens) ==> fresh(
                after.state,
                inputs,
                n,
            ),
    decreases left.len(),
{
    let s = w.state;
    let turn = choose|turn: Refresh| #[trigger]
        turned(w, left, changed, inputs, turn) && match turn.next {
            None => r is Ok && after == w,
            Some(i) => if !(0 <= i < left.len()) {
                false
            } else if !is_stirred(w.state, left, changed, i) {
                refreshed(w, left.remove(i), changed, inputs, r, after)
            } else if turn.result is Err {
                r == turn.result && after == turn.world
            } else {
                refreshed(
                    turn.world,
                    left.remove(i),
                    changed.insert(left[i]@),
                    inputs,
                    r,
                    after,
                )
            },
        };
    if left.len() > 0 {
        let p = lemma_some_ready(s, left, rank);
        assert(is_ready(s, left, p));
        let i = turn.next->0;
        assert(turn.next is Some);
        assert(is_ready(s, left, i));
        let name = left[i]@;
        assert(s.stored.contains_key(left[i]@));
        assert(!reads(s.derived, &s.stored[name].expr, name));
        if is_stirred(s, left, changed, i) {
            let b = turn.world.state;
            lemma_recomputed_fresh(w, name, inputs, turn.result, turn.world);
            lemma_on_course(s, b, inputs, left, i, changed, lens, true);
            assert(b.wf());
            assert(ranked(b, rank)) by {
                assert forall|n: Seq<char>, m: Seq<char>|
                    b.stored.contains_key(n) && b.stored.contains_key(m) && #[trigger] reads(
                        b.derived,
                        &b.stored[n].expr,
                        m,
                    ) implies rank(m) < rank(n) by {
                    assert(reads(s.derived, &s.stored[n].expr, m));
                }
            }
            lemma_refreshed_fresh(
                turn.world,
                left.remove(i),
                changed.insert(name),
                inputs,
                r,
                after,
                lens,
                rank,
            );
            assert forall|n: Seq<char>| #[trigger]
                s.stored.contains_key(n) && depends(s, n, lens) implies fresh(
                after.state,
                inputs,
                n,
            ) by {
                let k = choose|k: nat| depends_in(s, n, lens, k);
                lemma_depends_alike(s, b, n, lens, k);
                assert(depends(b, n, lens));
                assert(b.stored.contains_key(n));
            }
        } else {
            lemma_on_course(s, s, inputs, left, i, changed, lens, false);
            lemma_refreshed_fresh(w, left.remove(i), changed, inputs, r, after, lens, rank);
        }
    } else {
        assert(turn.next is None);
        assert forall|n: Seq<char>| #[trigger]
            s.stored.contains_key(n) && depends(s, n, lens) implies fresh(after.state, inputs, n) by {
            assert(!listed(left, n));
        }
    }
}

/// The materialised lenses to which the definition of one leads.
spec fn led_to(s: StateV, view: Seq<char>) -> Set<Seq<char>> {
    Set::new(
        |m: Seq<char>|
            s.stored.contains_key(m) && reaches(definitions(s), &s.stored[view].expr, m),
    )
}

/// How many materialised lenses the definition of one leads to.
spec fn rank_of(s: StateV) -> spec_fn(Seq<char>) -> nat {
    |view: Seq<char>| led_to(s, view).len()
}

/// Where no definition leads back to itself, the materialised lenses can be ranked.
proof fn lemma_ranked(s: StateV)
    requires
        tidy(s),
    ensures
        ranked(s, rank_of(s)),
{
    let all = definitions(s);
    assert forall|n: Seq<char>, m: Seq<char>|
        s.stored.contains_key(n) && s.stored.contains_key(m) && #[trigger] reads(
            s.derived,
            &s.stored[n].expr,
            m,
        ) implies rank_of(s)(m) < rank_of(s)(n) by {
        let (e, d) = (&s.stored[n].expr, &s.stored[m].expr);
        lemma_more_derivations(s.derived, all, e, m);
        assert(s.types.contains_key(m));
        assert(all.contains_key(m) && *all[m] == *d);
        let (low, high) = (led_to(s, m), led_to(s, n));
        assert(high.contains(m));
        assert(!low.contains(m)) by {
            assert(!reaches(all, &*all[m], m));
        }
        assert forall|x: Seq<char>| low.insert(m).contains(x) implies high.contains(x) by {
            if x != m {
                let i = choose|i: nat| reaches_in(all, e, m, i);
                let j = choose|j: nat| reaches_in(all, d, x, j);
                lemma_reaches_through(all, e, m, x, i, j);
            }
        }
        assert(high.subset_of(s.stored.dom()));
        vstd::set_lib::lemma_len_subset(high, s.stored.dom());
        assert(low.insert(m).subset_of(high));
        vstd::set_lib::lemma_len_subset(low.insert(m), high);
        vstd::set_lib::lemma_len_subset(low, high);
    }
}

/// A write to a lens leaves every materialised lens that depends on it fresh.
pub proof fn law_write_refreshes_views(
    w: World,
    name: Seq<char>,
    rows: Seq<Row>,
    inputs: &Inputs,
    r: Result<(), ExecErrorV>,
    after: World,
)
    requires
        tidy(w.state),
        rows.len() > 0,
        rows_written(w, name, rows, inputs, r, after),
        r is Ok,
    ensures
        forall|view: Seq<char>| #[trigger]
            after.state.stored.contains_key(view) && depends(after.state, view, name) ==> fresh(
                after.state,
                inputs,
                view,
            ),
{
    let rank = rank_of(w.state);
    lemma_ranked(w.state);
    let tried = choose|tried: World| #[trigger]
        rows_tried(w, name, rows, inputs, r, tried) && after == after_trial(w, r, tried);
    let mid = choose|mid: Refresh| #[trigger]
        laid(w, name, row_boxes(rows), inputs.now_ms, mid.result, mid.world) && if mid.result
            is Err {
            r == mid.result && tried == mid.world
        } else {
            dependents_refreshed(mid.world, name, inputs, r, tried)
        };
    lemma_laid_seen(w, name, rows, inputs.now_ms, mid.result, mid.world);
    let s = mid.world.state;
    let names = choose|names: Seq<String>| #[trigger]
        lists_keys(names, s.stored) && refreshed(
            mid.world,
            names,
            set![name],
            inputs,
            r,
            tried,
        );
    assert(ranked(s, rank)) by {
        assert forall|n: Seq<char>, m: Seq<char>|
            s.stored.contains_key(n) && s.stored.contains_key(m) && #[trigger] reads(
                s.derived,
                &s.stored[n].expr,
                m,
            ) implies rank(m) < rank(n) by {
            assert(reads(w.state.derived, &w.state.stored[n].expr, m));
        }
    }
    assert(on_course(s, inputs, names, set![name], name)) by {
        assert forall|i: int| 0 <= i < names.len() implies s.stored.contains_key(
            (#[trigger] names[i])@,
        ) && !set![name].contains(names[i]@) by {
            assert(listed(names, names[i]@));
        }
    }
    lemma_refreshed_fresh(mid.world, names, set![name], inputs, r, tried, name, rank);
    assert forall|view: Seq<char>| #[trigger]
        after.state.stored.contains_key(view) && depends(after.state, view, name) implies fresh(
        after.state,
        inputs,
        view,
    ) by {
        let k = choose|k: nat| depends_in(after.state, view, name, k);
        lemma_depends_alike(s, after.state, view, name, k);
        assert(depends(s, view, name));
        assert(s.stored.contains_key(view));
    }
}

/// Computing materialised lenses anew leaves the layers of every other lens alone.
pub proof fn lemma_refresh_leaves(
    w: World,
    left: Seq<String>,
    changed: Set<Seq<char>>,
    inputs: &Inputs,
    r: Result<(), ExecErrorV>,
    after: World,
    name: Seq<char>,
)
    requires
        refreshed(w, left, changed, inputs, r, after),
        !listed(left, name),
    ensures
        stack_of(after.state.db.stacks, name) == stack_of(w.state.db.stacks, name),
    decreases left.len(),
{
    let turn = choose|turn: Refresh| #[trigger]
        turned(w, left, changed, inputs, turn) && match turn.next {
            None => r is Ok && after == w,
            Some(i) => if !(0 <= i < left.len()) {
                false
            } else if !is_stirred(w.state, left, changed, i) {
                refreshed(w, left.remove(i), changed, inputs, r, after)
            } else if turn.result is Err {
                r == turn.result && after == turn.world
            } else {
                refreshed(
                    turn.world,
                    left.remove(i),
                    changed.insert(left[i]@),
                    inputs,
                    r,
                    after,
                )
            },
        };
    if let Some(i) = turn.next {
        let rest = left.remove(i);
        assert(forall|k: int| 0 <= k < left.len() ==> (#[trigger] left[k])@ != name);
        assert(!listed(rest, name)) by {
            if listed(rest, name) {
                let k = choose|k: int| 0 <= k < rest.len() && (#[trigger] rest[k])@ == name;
                assert(rest[k] == left[if k < i {
                    k
                } else {
                    k + 1
                }]);
            }
        }
        if !is_stirred(w.state, left, changed, i) {
            lemma_refresh_leaves(w, rest, changed, inputs, r, after, name);
        } else {
            let def = w.state.stored[left[i]@];
            if let Ok(segs) = materialised(
                w.state.env(inputs),
                &def.expr,
                def.range,
                w.state.fuel(),
            ) {
                if segs.len() > 0 && turn.result is Ok {
                    lemma_laid_seen(
                        w,
                        left[i]@,
                        segs,
                        inputs.now_ms,
                        turn.result,
                        turn.world,
                    );
                }
            }
            assert(stack_of(turn.world.state.db.stacks, name) == stack_of(
                w.state.db.stacks,
                name,
            ));
            if turn.result is Ok {
                lemma_refresh_leaves(
                    turn.world,
                    rest,
                    changed.insert(left[i]@),
                    inputs,
                    r,
                    after,
                    name,
                );
            }
        }
    }
}

/// What was written to a lens is seen there, also where a materialised lens that depends on it
/// could not be computed anew.
pub proof fn law_write_stays(
    w: World,
    name: Seq<char>,
    rows: Seq<Row>,
    inputs: &Inputs,
    r: Result<(), ExecErrorV>,
    after: World,
)
    requires
        rows.len() > 0,
        rows_allowed(w.state, name, rows) is Ok,
        rows_written(w, name, rows, inputs, r, after),
        r is Ok || !is_undone(r->Err_0),
    ensures
        forall|i: int, t: i64| #[trigger]
            in_segment(rows, i, t) ==> agree(
                newest(stack_of(after.state.db.stacks, name), seq![t], None),
                Some(rows[i].2),
            ),
{
    let tried = choose|tried: World| #[trigger]
        rows_tried(w, name, rows, inputs, r, tried) && after == after_trial(w, r, tried);
    let mid = choose|mid: Refresh| #[trigger]
        laid(w, name, row_boxes(rows), inputs.now_ms, mid.result, mid.world) && if mid.result
            is Err {
            r == mid.result && tried == mid.world
        } else {
            dependents_refreshed(mid.world, name, inputs, r, tried)
        };
    lemma_laid_seen(w, name, rows, inputs.now_ms, mid.result, mid.world);
    let s = mid.world.state;
    let names = choose|names: Seq<String>| #[trigger]
        lists_keys(names, s.stored) && refreshed(
            mid.world,
            names,
            set![name],
            inputs,
            r,
            tried,
        );
    assert(!listed(names, name)) by {
        assert(s.stored.contains_key(name) <==> listed(names, name));
    }
    lemma_refresh_leaves(mid.world, names, set![name], inputs, r, tried, name);
}

/// A new materialised lens is fresh.
pub proof fn law_new_view_is_fresh(
    w: World,
    name: Seq<char>,
    expr: &Expr,
    range: Option<(i64, i64)>,
    inputs: &Inputs,
    r: Result<(), ExecErrorV>,
    after: World,
)
    requires
        w.state.wf(),
        materialised_lens(w, name, expr, range, false, inputs, r, after),
        r is Ok,
    ensures
        fresh(after.state, inputs, name),
{
    let s = w.state;
    let segs = materialised(s.env(inputs), expr, range, s.fuel())->Ok_0;
    let tried = choose|tried: World| #[trigger]
        materialising(w, name, expr, range, segs, inputs, r, tried) && after == after_trial(
            w,
            r,
            tried,
        );
    let ty = segments_type(segs);
    let one = note(w, schema_record(StmtV::Create { name, ty, axes: Seq::empty() })).1;
    let two = note(one, schema_record(StmtV::Xderive { name, expr: expr@, range })).1;
    let whole = World {
        state: StateV {
            types: two.state.types.insert(name, ty),
            stored: two.state.stored.insert(name, DefV { expr: *expr, range }),
            ..two.state
        },
        ..two
    };
    if segs.len() > 0 {
        lemma_laid_seen(whole, name, segs, inputs.now_ms, r, tried);
    }
    let (x, y) = (s.env(inputs), after.state.env(inputs));
    assert(same_but_layers(x, y)) by {
        assert forall|n: Seq<char>| #[trigger] x.types.contains_key(n) implies
            !x.derived.contains_key(n) by {}
        assert forall|n: Seq<char>| #[trigger] y.types.contains_key(n) implies
            !y.derived.contains_key(n) by {
            if n != name {
                assert(x.types.contains_key(n));
            }
        }
    }
    assert forall|n: Seq<char>| #[trigger] reads(x.derived, expr, n) implies layers_alike(x, y, n) by {
        if n == name {
            lemma_more_derivations(s.derived, definitions(s), expr, name);
        }
        assert(stack_of(after.state.db.stacks, n) == stack_of(whole.state.db.stacks, n));
    }
    lemma_materialised_alike(x, y, expr, range, s.fuel());
}

/// A fresh materialised lens shows its expression: at each time in its window at which the
/// expression has a value, looking the lens up gives that value. This is said of expressions
/// that hold no aggregate, themselves or in what they read.
pub proof fn law_fresh_view_shows_expression(
    s: StateV,
    inputs: &Inputs,
    view: Seq<char>,
    start: i64,
    end: i64,
    t: i64,
    v: Value,
)
    requires
        env_wf(s.env(inputs)),
        fresh(s, inputs, view),
        steady(s.env(inputs), &s.stored[view].expr, s.fuel()),
        match s.stored[view].range {
            Some(window) => window == (start, end),
            None => domain_of(s.env(inputs), &s.stored[view].expr) == Some((start, end)),
        },
        start <= t < end,
        expr_at(s.env(inputs), &s.stored[view].expr, t, s.fuel()) == Ok::<
            Option<Value>,
            ExecErrorV,
        >(Some(v)),
    ensures
        agree(newest(stack_of(s.db.stacks, view), seq![t], None), Some(v)),
{
    let e = &s.stored[view].expr;
    let env = s.env(inputs);
    let segs = materialised(env, e, s.stored[view].range, s.fuel())->Ok_0;
    assert(materialised(env, e, Some((start, end)), s.fuel()) == Ok::<
        Seq<Segment<Value>>,
        ExecErrorV,
    >(segs));
    law_materialised_shows_expression(env, e, start, end, s.fuel(), segs);
    let f = expr_sampler(env, e, s.fuel());
    assert(f(t) == Ok::<Option<Value>, ExecErrorV>(Some(v)));
    let i = choose|i: int| #[trigger] in_segment(segs, i, t) && agree(Some(segs[i].2), Some(v));
    let got = newest(stack_of(s.db.stacks, view), seq![t], None);
    assert(agree(got, Some(segs[i].2)));
    let (x, y) = (got->0, segs[i].2);
    if y != v {
        Value::alike_symmetric(y, v);
    }
    lemma_agree_chain(got, Some(y), Some(v));
}

} // verus!
