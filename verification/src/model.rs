//! Temporal facts and the layers that batch them.

use crate::clock;
use crate::exact::{share, Exact};
use crate::order::{ascending, linked, rearranged, sort_in_place, Rank};
use std::sync::Arc;
use vstd::prelude::*;

verus! {

pub type Timestamp = i64;

pub type LayerId = u64;

/// What the storage layer asks of the values that it holds: they can be copied
/// exactly, and two of them can be compared.
pub trait Datum: Exact {
    /// Whether two values count as equal. Symmetric and transitive; a value need
    /// not be alike to itself.
    spec fn alike(&self, other: &Self) -> bool;

    fn is_alike(&self, other: &Self) -> (b: bool)
        ensures
            b == self.alike(other),
    ;

    proof fn alike_symmetric(a: Self, b: Self)
        requires
            a.alike(&b),
        ensures
            b.alike(&a),
    ;

    proof fn alike_transitive(a: Self, b: Self, c: Self)
        requires
            a.alike(&b),
            b.alike(&c),
        ensures
            a.alike(&c),
    ;
}

impl Datum for i64 {
    open spec fn alike(&self, other: &Self) -> bool {
        *self == *other
    }

    fn is_alike(&self, other: &Self) -> (b: bool) {
        *self == *other
    }

    proof fn alike_symmetric(a: Self, b: Self) {
    }

    proof fn alike_transitive(a: Self, b: Self, c: Self) {
    }
}

impl Datum for i32 {
    open spec fn alike(&self, other: &Self) -> bool {
        *self == *other
    }

    fn is_alike(&self, other: &Self) -> (b: bool) {
        *self == *other
    }

    proof fn alike_symmetric(a: Self, b: Self) {
    }

    proof fn alike_transitive(a: Self, b: Self, c: Self) {
    }
}

impl Datum for i8 {
    open spec fn alike(&self, other: &Self) -> bool {
        *self == *other
    }

    fn is_alike(&self, other: &Self) -> (b: bool) {
        *self == *other
    }

    proof fn alike_symmetric(a: Self, b: Self) {
    }

    proof fn alike_transitive(a: Self, b: Self, c: Self) {
    }
}

/// One axis interval, `[lo, hi)`.
#[derive(Debug, Clone, Copy, PartialEq, Eq, Structural)]
pub struct Bound {
    pub hi: Timestamp,
    pub lo: Timestamp,
}

impl Bound {
    pub open spec fn holds(self, t: Timestamp) -> bool {
        self.lo <= t < self.hi
    }
}

/// An atomic temporal fact: the value holds over the orthotope that `coords` spans,
/// one half-open interval per axis, axis 0 being valid time.
#[derive(Debug, Clone)]
pub struct Tau<V> {
    pub coords: Vec<Bound>,
    pub value: V,
}

impl<V> Tau<V> {
    /// At least one axis, and no degenerate or inverted interval.
    pub open spec fn wf(&self) -> bool {
        &&& self.coords@.len() > 0
        &&& forall|i: int|
            0 <= i < self.coords@.len() ==> (#[trigger] self.coords@[i]).lo < self.coords@[i].hi
    }

    /// The point `ts` lies inside the orthotope.
    pub open spec fn covers(&self, ts: Seq<Timestamp>) -> bool {
        &&& ts.len() == self.coords@.len()
        &&& forall|i: int| 0 <= i < ts.len() ==> (#[trigger] self.coords@[i]).holds(ts[i])
    }

    /// The valid-time interval holds `t`, whatever the other axes say.
    pub open spec fn spans(&self, t: Timestamp) -> bool {
        self.coords@[0].holds(t)
    }

    /// The two orthotopes share a point.
    pub open spec fn meets(&self, other: &Self) -> bool {
        &&& self.coords@.len() == other.coords@.len()
        &&& forall|i: int|
            0 <= i < self.coords@.len() ==> (#[trigger] self.coords@[i]).lo < other.coords@[i].hi
                && other.coords@[i].lo < self.coords@[i].hi
    }

    /// The two valid-time intervals share a point.
    pub open spec fn overlaps(&self, other: &Self) -> bool {
        self.coords@[0].lo < other.coords@[0].hi && other.coords@[0].lo < self.coords@[0].hi
    }

    pub fn new(start: Timestamp, end: Timestamp, value: V) -> (r: Self)
        requires
            start < end,
        ensures
            r.coords@ == seq![(Bound { hi: end, lo: start })],
            r.value == value,
            r.wf(),
    {
        let coords: Vec<Bound> = vec![Bound { hi: end, lo: start }];
        Self { coords, value }
    }

    /// One half-open `[lo, hi)` interval per axis; `None` when there is no axis or
    /// any interval is degenerate or inverted.
    pub fn try_new_nd(coords: &[(Timestamp, Timestamp)], value: V) -> (r: Option<Self>)
        ensures
            r is Some <==> coords@.len() > 0 && forall|i: int|
                0 <= i < coords@.len() ==> (#[trigger] coords@[i]).0 < coords@[i].1,
            r matches Some(tau) ==> {
                &&& tau.wf()
                &&& tau.value == value
                &&& tau.coords@ =~= coords@.map_values(
                    |c: (Timestamp, Timestamp)| (Bound { hi: c.1, lo: c.0 }),
                )
            },
    {
        let n: usize = coords.len();
        if n == 0 {
            return None;
        }
        let mut out: Vec<Bound> = Vec::new();
        let mut i: usize = 0;
        while i < n
            invariant
                i <= n,
                n == coords@.len(),
                out@.len() == i,
                forall|k: int| 0 <= k < i ==> (#[trigger] coords@[k]).0 < coords@[k].1,
                forall|k: int|
                    0 <= k < i ==> #[trigger] out@[k] == (Bound {
                        hi: coords@[k].1,
                        lo: coords@[k].0,
                    }),
            decreases n - i,
        {
            let (lo, hi) = coords[i];
            if lo >= hi {
                return None;
            }
            out.push(Bound { hi, lo });
            i = i + 1;
        }
        Some(Self { coords: out, value })
    }

    /// Number of axes that this tau spans.
    pub fn arity(&self) -> (r: usize)
        ensures
            r == self.coords@.len(),
    {
        self.coords.len()
    }

    /// Whether `ts` names one point per axis and every axis interval contains it.
    pub fn contains_point(&self, ts: &[Timestamp]) -> (r: bool)
        ensures
            r == self.covers(ts@),
    {
        if ts.len() != self.coords.len() {
            return false;
        }
        let mut i: usize = 0;
        while i < ts.len()
            invariant
                i <= ts@.len(),
                ts@.len() == self.coords@.len(),
                forall|k: int| 0 <= k < i ==> (#[trigger] self.coords@[k]).holds(ts@[k]),
            decreases ts@.len() - i,
        {
            let b = self.coords[i];
            if !(b.lo <= ts[i] && ts[i] < b.hi) {
                assert(!self.coords@[i as int].holds(ts@[i as int]));
                return false;
            }
            i = i + 1;
        }
        true
    }

    /// Whether the two orthotopes intersect on every axis; `false` when they have
    /// different numbers of axes.
    pub fn box_overlaps(&self, other: &Self) -> (r: bool)
        ensures
            r == self.meets(other),
    {
        if self.coords.len() != other.coords.len() {
            return false;
        }
        let mut i: usize = 0;
        while i < self.coords.len()
            invariant
                i <= self.coords@.len(),
                self.coords@.len() == other.coords@.len(),
                forall|k: int|
                    0 <= k < i ==> (#[trigger] self.coords@[k]).lo < other.coords@[k].hi
                        && other.coords@[k].lo < self.coords@[k].hi,
            decreases self.coords@.len() - i,
        {
            let a = self.coords[i];
            let b = other.coords[i];
            if !(a.lo < b.hi && b.lo < a.hi) {
                assert(!(self.coords@[i as int].lo < other.coords@[i as int].hi
                    && other.coords@[i as int].lo < self.coords@[i as int].hi));
                return false;
            }
            i = i + 1;
        }
        true
    }

    /// Start of the valid-time interval.
    pub fn start(&self) -> (r: Timestamp)
        requires
            self.coords@.len() > 0,
        ensures
            r == self.coords@[0].lo,
    {
        self.coords[0].lo
    }

    /// End of the valid-time interval.
    pub fn end(&self) -> (r: Timestamp)
        requires
            self.coords@.len() > 0,
        ensures
            r == self.coords@[0].hi,
    {
        self.coords[0].hi
    }

    pub fn contains(&self, t: Timestamp) -> (r: bool)
        requires
            self.coords@.len() > 0,
        ensures
            r == self.spans(t),
    {
        let bound = self.coords[0];
        bound.lo <= t && t < bound.hi
    }
}

impl<V: Datum> Tau<V> {
    /// An exact copy.
    pub fn dup(&self) -> (r: Self)
        ensures
            r.coords@ == self.coords@,
            r.value == self.value,
    {
        let mut coords: Vec<Bound> = Vec::new();
        let mut i: usize = 0;
        while i < self.coords.len()
            invariant
                i <= self.coords@.len(),
                coords@ =~= self.coords@.take(i as int),
            decreases self.coords@.len() - i,
        {
            coords.push(self.coords[i]);
            i = i + 1;
        }
        Self { coords, value: self.value.dup() }
    }
}

/// Two taus share a point exactly when some point lies in both.
pub proof fn law_meets_is_shared_point<V>(a: Tau<V>, b: Tau<V>)
    requires
        a.wf(),
        b.wf(),
    ensures
        a.meets(&b) <==> exists|ts: Seq<Timestamp>| a.covers(ts) && b.covers(ts),
{
    if a.meets(&b) {
        let ts = Seq::new(
            a.coords@.len(),
            |i: int|
                if a.coords@[i].lo < b.coords@[i].lo {
                    b.coords@[i].lo
                } else {
                    a.coords@[i].lo
                },
        );
        assert forall|i: int| 0 <= i < ts.len() implies (#[trigger] a.coords@[i]).holds(ts[i]) by {}
        assert forall|i: int| 0 <= i < ts.len() implies (#[trigger] b.coords@[i]).holds(ts[i]) by {
            assert(a.coords@[i].lo < b.coords@[i].hi);
        }
        assert(a.covers(ts) && b.covers(ts));
    }
    if exists|ts: Seq<Timestamp>| a.covers(ts) && b.covers(ts) {
        let ts = choose|ts: Seq<Timestamp>| a.covers(ts) && b.covers(ts);
        assert forall|i: int| 0 <= i < a.coords@.len() implies (#[trigger] a.coords@[i]).lo
            < b.coords@[i].hi && b.coords@[i].lo < a.coords@[i].hi by {
            assert(a.coords@[i].holds(ts[i]));
            assert(b.coords@[i].holds(ts[i]));
        }
    }
}

/// Taus are ranked by the start of their valid time.
impl<V> Rank for Tau<V> {
    open spec fn at_most(&self, other: &Self) -> bool {
        start_of(*self) <= start_of(*other)
    }

    fn le(&self, other: &Self) -> (b: bool) {
        start_or_min(self) <= start_or_min(other)
    }

    proof fn total(a: Self, b: Self) {
    }

    proof fn transitive(a: Self, b: Self, c: Self) {
    }
}

/// The start of a tau's valid time; the least timestamp where it has no axis.
pub open spec fn start_of<V>(tau: Tau<V>) -> int {
    if tau.coords@.len() == 0 {
        i64::MIN as int
    } else {
        tau.coords@[0].lo as int
    }
}

fn start_or_min<V>(tau: &Tau<V>) -> (r: i64)
    ensures
        r == start_of(*tau),
{
    if tau.coords.len() == 0 {
        i64::MIN
    } else {
        tau.coords[0].lo
    }
}

/// Every tau is well formed.
pub open spec fn all_wf<V>(taus: Seq<Tau<V>>) -> bool {
    forall|i: int| 0 <= i < taus.len() ==> (#[trigger] taus[i]).wf()
}

/// No two taus overlap on the valid-time axis.
pub open spec fn times_apart<V>(taus: Seq<Tau<V>>) -> bool {
    forall|i: int, j: int|
        #![trigger taus[i], taus[j]]
        0 <= i < taus.len() && 0 <= j < taus.len() && i != j ==> !taus[i].overlaps(&taus[j])
}

/// No two taus share a point.
pub open spec fn boxes_apart<V>(taus: Seq<Tau<V>>) -> bool {
    forall|i: int, j: int|
        #![trigger taus[i], taus[j]]
        0 <= i < taus.len() && 0 <= j < taus.len() && i != j ==> !taus[i].meets(&taus[j])
}

/// All taus span the same number of axes.
pub open spec fn one_arity<V>(taus: Seq<Tau<V>>) -> bool {
    forall|i: int, j: int|
        #![trigger taus[i], taus[j]]
        0 <= i < taus.len() && 0 <= j < taus.len() ==> taus[i].coords@.len()
            == taus[j].coords@.len()
}

/// Every tau ends before the next one starts.
pub open spec fn in_line<V>(taus: Seq<Tau<V>>) -> bool {
    forall|i: int, j: int|
        #![trigger taus[i], taus[j]]
        0 <= i < j < taus.len() ==> taus[i].coords@[0].hi <= taus[j].coords@[0].lo
}

/// The least valid-time start, or the greatest timestamp where there is no tau.
pub open spec fn min_start_of<V>(taus: Seq<Tau<V>>) -> int
    decreases taus.len(),
{
    if taus.len() == 0 {
        i64::MAX as int
    } else {
        let rest = min_start_of(taus.drop_last());
        let lo = taus.last().coords@[0].lo as int;
        if lo < rest {
            lo
        } else {
            rest
        }
    }
}

/// The greatest valid-time end, or the least timestamp where there is no tau.
pub open spec fn max_end_of<V>(taus: Seq<Tau<V>>) -> int
    decreases taus.len(),
{
    if taus.len() == 0 {
        i64::MIN as int
    } else {
        let rest = max_end_of(taus.drop_last());
        let hi = taus.last().coords@[0].hi as int;
        if hi > rest {
            hi
        } else {
            rest
        }
    }
}

pub proof fn lemma_bounds_hold<V>(taus: Seq<Tau<V>>, i: int)
    requires
        0 <= i < taus.len(),
    ensures
        min_start_of(taus) <= taus[i].coords@[0].lo,
        taus[i].coords@[0].hi <= max_end_of(taus),
    decreases taus.len(),
{
    if i < taus.len() - 1 {
        lemma_bounds_hold(taus.drop_last(), i);
    }
}

proof fn lemma_min_start_sorted<V>(taus: Seq<Tau<V>>)
    requires
        taus.len() > 0,
        all_wf(taus),
        ascending(taus),
    ensures
        min_start_of(taus) == taus[0].coords@[0].lo,
    decreases taus.len(),
{
    if taus.len() > 1 {
        let front = taus.drop_last();
        assert forall|i: int| 0 <= i < front.len() implies (#[trigger] front[i]).wf() by {
            assert(taus[i].wf());
        }
        assert forall|i: int, j: int| #![trigger front[i], front[j]]
            0 <= i < j < front.len() implies front[i].at_most(&front[j]) by {
            assert(taus[i].at_most(&taus[j]));
        }
        lemma_min_start_sorted(front);
        assert(taus[0].at_most(&taus[taus.len() - 1]));
        assert(taus[0].wf() && taus[taus.len() - 1].wf());
    } else {
        reveal_with_fuel(min_start_of, 2);
        assert(taus.drop_last() =~= Seq::empty());
        assert(taus[0].wf());
        assert(taus[0].coords@[0].lo < taus[0].coords@[0].hi);
    }
}

proof fn lemma_max_end_line<V>(taus: Seq<Tau<V>>)
    requires
        taus.len() > 0,
        all_wf(taus),
        in_line(taus),
    ensures
        max_end_of(taus) == taus.last().coords@[0].hi,
    decreases taus.len(),
{
    if taus.len() > 1 {
        let front = taus.drop_last();
        assert forall|i: int| 0 <= i < front.len() implies (#[trigger] front[i]).wf() by {
            assert(taus[i].wf());
        }
        assert forall|i: int, j: int| #![trigger front[i], front[j]]
            0 <= i < j < front.len() implies front[i].coords@[0].hi <= front[j].coords@[0].lo by {
            assert(taus[i].coords@[0].hi <= taus[j].coords@[0].lo);
        }
        lemma_max_end_line(front);
        let n = taus.len();
        assert(taus[n - 2].coords@[0].hi <= taus[n - 1].coords@[0].lo);
        assert(taus[n - 1].wf());
        assert(taus[n - 1].coords@[0].lo < taus[n - 1].coords@[0].hi);
    } else {
        reveal_with_fuel(max_end_of, 2);
        assert(taus.drop_last() =~= Seq::empty());
        assert(taus[0].wf());
        assert(taus[0].coords@[0].lo < taus[0].coords@[0].hi);
    }
}

proof fn lemma_line_is_sorted<V>(taus: Seq<Tau<V>>)
    requires
        all_wf(taus),
        in_line(taus),
    ensures
        ascending(taus),
        times_apart(taus),
        boxes_apart(taus),
{
    assert forall|i: int, j: int| #![trigger taus[i], taus[j]] 0 <= i < j < taus.len() implies {
        &&& taus[i].at_most(&taus[j])
        &&& !taus[i].overlaps(&taus[j])
        &&& !taus[j].overlaps(&taus[i])
        &&& !taus[i].meets(&taus[j])
        &&& !taus[j].meets(&taus[i])
    } by {
        assert(taus[i].wf() && taus[j].wf());
        assert(taus[i].coords@[0].lo < taus[i].coords@[0].hi);
        assert(taus[j].coords@[0].lo < taus[j].coords@[0].hi);
    }
    assert forall|i: int, j: int| #![trigger taus[i], taus[j]]
        0 <= i < taus.len() && 0 <= j < taus.len() && i != j implies !taus[i].overlaps(&taus[j])
        && !taus[i].meets(&taus[j]) by {
        if i < j {
            assert(!taus[i].overlaps(&taus[j]));
        } else {
            assert(!taus[j].overlaps(&taus[i]));
        }
    }
}

/// Rearranging taus keeps each of the properties that speak of all or of pairs.
pub proof fn lemma_rearranged_taus<V>(a: Seq<Tau<V>>, b: Seq<Tau<V>>)
    requires
        rearranged(a, b),
    ensures
        a.len() == b.len(),
        all_wf(a) <==> all_wf(b),
        times_apart(a) <==> times_apart(b),
        boxes_apart(a) <==> boxes_apart(b),
        one_arity(a) <==> one_arity(b),
{
    let (from, to) = choose|from: Seq<int>, to: Seq<int>| linked(a, b, from, to);
    assert forall|k: int| 0 <= k < a.len() implies #[trigger] a[k] == b[to[k]] by {
        assert(from[to[k]] == k);
        assert(b[to[k]] == a[from[to[k]]]);
    }
    assert forall|k: int| 0 <= k < a.len() implies #[trigger] b[k] == a[from[k]] by {}
    if all_wf(a) {
        assert forall|i: int| 0 <= i < b.len() implies (#[trigger] b[i]).wf() by {
            assert(a[from[i]].wf());
        }
    }
    if all_wf(b) {
        assert forall|i: int| 0 <= i < a.len() implies (#[trigger] a[i]).wf() by {
            assert(b[to[i]].wf());
        }
    }
    assert forall|i: int, j: int|
        #![trigger b[i], b[j]]
        0 <= i < b.len() && 0 <= j < b.len() && i != j implies from[i] != from[j] by {
        assert(to[from[i]] == i && to[from[j]] == j);
    }
    assert forall|i: int, j: int|
        #![trigger a[i], a[j]]
        0 <= i < a.len() && 0 <= j < a.len() && i != j implies to[i] != to[j] by {
        assert(from[to[i]] == i && from[to[j]] == j);
    }
    if times_apart(a) {
        assert(times_apart(b));
    }
    if times_apart(b) {
        assert(times_apart(a));
    }
    if boxes_apart(a) {
        assert(boxes_apart(b));
    }
    if boxes_apart(b) {
        assert(boxes_apart(a));
    }
    if one_arity(a) {
        assert(one_arity(b));
    }
    if one_arity(b) {
        assert(one_arity(a));
    }
}

/// The value of the first tau that covers the point `ts`.
pub open spec fn first_hit<V>(taus: Seq<Tau<V>>, ts: Seq<Timestamp>) -> Option<V>
    decreases taus.len(),
{
    if taus.len() == 0 {
        None
    } else if taus[0].covers(ts) {
        Some(taus[0].value)
    } else {
        first_hit(taus.drop_first(), ts)
    }
}

/// Where the taus share no point, the first hit is the only one.
pub proof fn lemma_hit_is_only<V>(taus: Seq<Tau<V>>, ts: Seq<Timestamp>, i: int)
    requires
        all_wf(taus),
        boxes_apart(taus),
        0 <= i < taus.len(),
        taus[i].covers(ts),
    ensures
        first_hit(taus, ts) == Some(taus[i].value),
    decreases taus.len(),
{
    if i > 0 {
        if taus[0].covers(ts) {
            assert(taus[0].wf() && taus[i].wf());
            law_meets_is_shared_point(taus[0], taus[i]);
            assert(taus[0].meets(&taus[i]));
        }
        let rest = taus.drop_first();
        assert forall|k: int| 0 <= k < rest.len() implies (#[trigger] rest[k]).wf() by {
            assert(taus[k + 1].wf());
        }
        assert forall|k: int, l: int| #![trigger rest[k], rest[l]]
            0 <= k < rest.len() && 0 <= l < rest.len() && k != l implies !rest[k].meets(
            &rest[l],
        ) by {
            assert(!taus[k + 1].meets(&taus[l + 1]));
        }
        lemma_hit_is_only(rest, ts, i - 1);
    }
}

pub proof fn lemma_no_hit<V>(taus: Seq<Tau<V>>, ts: Seq<Timestamp>)
    ensures
        first_hit(taus, ts) is None <==> forall|i: int|
            0 <= i < taus.len() ==> !(#[trigger] taus[i]).covers(ts),
    decreases taus.len(),
{
    if taus.len() > 0 {
        let rest = taus.drop_first();
        lemma_no_hit(rest, ts);
        if first_hit(taus, ts) is None {
            assert forall|i: int| 0 <= i < taus.len() implies !(#[trigger] taus[i]).covers(ts) by {
                if i > 0 {
                    assert(!rest[i - 1].covers(ts));
                }
            }
        } else if !taus[0].covers(ts) {
            let k = choose|k: int| 0 <= k < rest.len() && (#[trigger] rest[k]).covers(ts);
            assert(taus[k + 1].covers(ts));
        }
    }
}

/// The value whose tau's valid time holds `t`.
pub open spec fn value_at<V>(taus: Seq<Tau<V>>, t: Timestamp) -> Option<V>
    decreases taus.len(),
{
    if taus.len() == 0 {
        None
    } else if taus[0].spans(t) {
        Some(taus[0].value)
    } else {
        value_at(taus.drop_first(), t)
    }
}

pub proof fn lemma_value_at_only<V>(taus: Seq<Tau<V>>, t: Timestamp, i: int)
    requires
        in_line(taus),
        0 <= i < taus.len(),
        taus[i].spans(t),
    ensures
        value_at(taus, t) == Some(taus[i].value),
    decreases taus.len(),
{
    if i > 0 {
        assert(taus[0].coords@[0].hi <= taus[i].coords@[0].lo);
        let rest = taus.drop_first();
        assert forall|k: int, l: int| #![trigger rest[k], rest[l]]
            0 <= k < l < rest.len() implies rest[k].coords@[0].hi <= rest[l].coords@[0].lo by {
            assert(taus[k + 1].coords@[0].hi <= taus[l + 1].coords@[0].lo);
        }
        lemma_value_at_only(rest, t, i - 1);
    }
}

pub proof fn lemma_value_at_none<V>(taus: Seq<Tau<V>>, t: Timestamp)
    ensures
        value_at(taus, t) is None <==> forall|i: int|
            0 <= i < taus.len() ==> !(#[trigger] taus[i]).spans(t),
    decreases taus.len(),
{
    if taus.len() > 0 {
        let rest = taus.drop_first();
        lemma_value_at_none(rest, t);
        if value_at(taus, t) is None {
            assert forall|i: int| 0 <= i < taus.len() implies !(#[trigger] taus[i]).spans(t) by {
                if i > 0 {
                    assert(!rest[i - 1].spans(t));
                }
            }
        } else if !taus[0].spans(t) {
            let k = choose|k: int| 0 <= k < rest.len() && (#[trigger] rest[k]).spans(t);
            assert(taus[k + 1].spans(t));
        }
    }
}

/// On one axis, looking up a point and looking up its valid time are the same.
pub proof fn lemma_line_hit<V>(taus: Seq<Tau<V>>, t: Timestamp)
    requires
        forall|i: int| 0 <= i < taus.len() ==> (#[trigger] taus[i]).coords@.len() == 1,
    ensures
        first_hit(taus, seq![t]) == value_at(taus, t),
    decreases taus.len(),
{
    if taus.len() > 0 {
        let rest = taus.drop_first();
        assert forall|i: int| 0 <= i < rest.len() implies (#[trigger] rest[i]).coords@.len() == 1 by {
            assert(taus[i + 1].coords@.len() == 1);
        }
        lemma_line_hit(rest, t);
        assert(taus[0].coords@.len() == 1);
        if taus[0].spans(t) {
            assert(taus[0].covers(seq![t]));
        } else {
            assert(!taus[0].coords@[0].holds(seq![t][0]));
        }
    }
}

/// An append batch, or revision: taus sorted by valid-time start, no two of which
/// share a point.
#[derive(Debug)]
pub struct Layer<V> {
    pub id: LayerId,
    /// Least valid-time start of the taus; lets a lookup skip the layer.
    pub min_start: Timestamp,
    /// Greatest valid-time end of the taus.
    pub max_end: Timestamp,
    pub taus: Arc<Vec<Tau<V>>>,
    /// Milliseconds since the Unix epoch when the layer was first written.
    pub written_at: i64,
}

impl<V> Clone for Layer<V> {
    /// Shares the taus.
    fn clone(&self) -> (r: Self)
        ensures
            r == *self,
    {
        Layer {
            id: self.id,
            min_start: self.min_start,
            max_end: self.max_end,
            taus: share(&self.taus),
            written_at: self.written_at,
        }
    }
}

impl<V> Layer<V> {
    pub open spec fn wf(&self) -> bool {
        &&& all_wf(self.taus@)
        &&& ascending(self.taus@)
        &&& boxes_apart(self.taus@)
        &&& self.min_start == min_start_of(self.taus@)
        &&& self.max_end == max_end_of(self.taus@)
    }

    /// The taus do not overlap on valid time.
    pub open spec fn flat(&self) -> bool {
        in_line(self.taus@)
    }

    /// Every tau has one axis.
    pub open spec fn one_axis(&self) -> bool {
        forall|i: int| 0 <= i < self.taus@.len() ==> (#[trigger] self.taus@[i]).coords@.len() == 1
    }

    /// What the layer says of the point `ts`.
    pub open spec fn hit(&self, ts: Seq<Timestamp>) -> Option<V> {
        first_hit(self.taus@, ts)
    }

    /// A layer written now. Taus are sorted by start.
    pub fn new(id: LayerId, taus: Vec<Tau<V>>) -> (r: Self)
        requires
            all_wf(taus@),
            times_apart(taus@),
        ensures
            r.wf(),
            r.flat(),
            r.id == id,
            rearranged(taus@, r.taus@),
    {
        Self::new_at(id, taus, clock::system_now_ms())
    }

    /// A layer with an explicit write timestamp.
    pub fn new_at(id: LayerId, taus: Vec<Tau<V>>, written_at: i64) -> (r: Self)
        requires
            all_wf(taus@),
            times_apart(taus@),
        ensures
            r.wf(),
            r.flat(),
            r.id == id,
            r.written_at == written_at,
            rearranged(taus@, r.taus@),
    {
        match Self::try_new_at(id, taus, written_at) {
            Some(layer) => layer,
            None => Self::new_sorted_unchecked(id, Vec::new(), written_at),
        }
    }

    /// Fallible counterpart to `new_at`, for taus that may overlap.
    pub fn try_new_at(id: LayerId, taus: Vec<Tau<V>>, written_at: i64) -> (r: Option<Self>)
        requires
            all_wf(taus@),
        ensures
            r is Some <==> times_apart(taus@),
            r matches Some(layer) ==> {
                &&& layer.wf()
                &&& layer.flat()
                &&& layer.id == id
                &&& layer.written_at == written_at
                &&& rearranged(taus@, layer.taus@)
            },
    {
        let mut sorted = taus;
        sort_in_place(&mut sorted);
        proof {
            lemma_rearranged_taus(taus@, sorted@);
        }
        let n: usize = sorted.len();
        let mut i: usize = 1;
        while i < n
            invariant
                1 <= i,
                n == sorted@.len(),
                i <= n || n == 0,
                all_wf(sorted@),
                ascending(sorted@),
                rearranged(taus@, sorted@),
                times_apart(taus@) <==> times_apart(sorted@),
                forall|p: int, q: int|
                    #![trigger sorted@[p], sorted@[q]]
                    0 <= p < q < i && q < n ==> sorted@[p].coords@[0].hi <= sorted@[q].coords@[0].lo,
            decreases n - i,
        {
            assert(sorted@[i - 1].wf() && sorted@[i as int].wf());
            assert(sorted@[i - 1].at_most(&sorted@[i as int]));
            if sorted[i - 1].coords[0].hi > sorted[i].coords[0].lo {
                assert(sorted@[i as int].coords@[0].lo < sorted@[i as int].coords@[0].hi);
                assert(sorted@[i - 1].coords@[0].lo < sorted@[i - 1].coords@[0].hi);
                assert(sorted@[i - 1].overlaps(&sorted@[i as int]));
                return None;
            }
            assert forall|p: int, q: int| #![trigger sorted@[p], sorted@[q]]
                0 <= p < q < i + 1 implies sorted@[p].coords@[0].hi <= sorted@[q].coords@[0].lo by {
                if q == i && p < i - 1 {
                    assert(sorted@[p].coords@[0].hi <= sorted@[i - 1].coords@[0].lo);
                    assert(sorted@[i - 1].coords@[0].lo < sorted@[i - 1].coords@[0].hi);
                }
            }
            i = i + 1;
        }
        assert(in_line(sorted@));
        proof {
            lemma_line_is_sorted(sorted@);
        }
        Some(Self::new_sorted_unchecked(id, sorted, written_at))
    }

    /// A layer of taus that are already sorted by start and do not overlap on valid
    /// time.
    pub fn new_sorted_unchecked(id: LayerId, taus: Vec<Tau<V>>, written_at: i64) -> (r: Self)
        requires
            all_wf(taus@),
            in_line(taus@),
        ensures
            r.wf(),
            r.flat(),
            r.id == id,
            r.written_at == written_at,
            r.taus@ == taus@,
    {
        proof {
            lemma_line_is_sorted(taus@);
            if taus@.len() > 0 {
                lemma_min_start_sorted(taus@);
                lemma_max_end_line(taus@);
                assert(taus@[0].wf() && taus@[taus@.len() - 1].wf());
            }
        }
        let n: usize = taus.len();
        let min_start: i64 = if n == 0 {
            Timestamp::MAX
        } else {
            taus[0].coords[0].lo
        };
        let max_end: i64 = if n == 0 {
            Timestamp::MIN
        } else {
            taus[n - 1].coords[0].hi
        };
        Layer { id, min_start, max_end, taus: Arc::new(taus), written_at }
    }

    /// A layer of taus of any number of axes. `None` when the numbers of axes differ
    /// or two taus share a point; they may overlap on valid time as long as they are
    /// apart on another axis.
    pub fn try_new_nd_at(id: LayerId, taus: Vec<Tau<V>>, written_at: i64) -> (r: Option<Self>)
        requires
            all_wf(taus@),
        ensures
            r is Some <==> one_arity(taus@) && boxes_apart(taus@),
            r matches Some(layer) ==> {
                &&& layer.wf()
                &&& layer.id == id
                &&& layer.written_at == written_at
                &&& rearranged(taus@, layer.taus@)
            },
    {
        let ghost input = taus@;
        let n: usize = taus.len();
        let mut i: usize = 0;
        while i < n
            invariant
                i <= n,
                n == taus@.len(),
                forall|p: int| 0 <= p < i ==> (#[trigger] taus@[p]).coords@.len() == taus@[0].coords@.len(),
            decreases n - i,
        {
            if taus[i].arity() != taus[0].arity() {
                assert(!one_arity(taus@)) by {
                    assert(taus@[i as int].coords@.len() != taus@[0].coords@.len());
                }
                return None;
            }
            i = i + 1;
        }
        assert(one_arity(taus@));
        i = 0;
        while i < n
            invariant
                i <= n,
                n == taus@.len(),
                forall|p: int, q: int|
                    #![trigger taus@[p], taus@[q]]
                    0 <= p < i && p < q < n ==> !taus@[p].meets(&taus@[q]),
            decreases n - i,
        {
            let mut j: usize = i + 1;
            while j < n
                invariant
                    i < j <= n,
                    n == taus@.len(),
                    forall|q: int| i < q < j ==> !taus@[i as int].meets(&#[trigger] taus@[q]),
                decreases n - j,
            {
                if taus[i].box_overlaps(&taus[j]) {
                    assert(taus@[i as int].meets(&taus@[j as int]));
                    return None;
                }
                j = j + 1;
            }
            i = i + 1;
        }
        assert forall|p: int, q: int| #![trigger taus@[p], taus@[q]]
            0 <= p < n && 0 <= q < n && p != q implies !taus@[p].meets(&taus@[q]) by {
            if q < p && taus@[p].meets(&taus@[q]) {
                assert(taus@[q].meets(&taus@[p])) by {
                    let (a, b) = (taus@[q], taus@[p]);
                    assert forall|k: int| 0 <= k < a.coords@.len() implies (#[trigger] a.coords@[k]).lo
                        < b.coords@[k].hi && b.coords@[k].lo < a.coords@[k].hi by {
                        assert(b.coords@[k].lo < a.coords@[k].hi);
                    }
                }
            }
        }
        assert(boxes_apart(taus@));
        let mut taus = taus;
        sort_in_place(&mut taus);
        proof {
            lemma_rearranged_taus(input, taus@);
            if taus@.len() > 0 {
                lemma_min_start_sorted(taus@);
                assert(taus@[0].wf());
            }
        }
        let min_start: i64 = if n == 0 {
            Timestamp::MAX
        } else {
            taus[0].coords[0].lo
        };
        let mut max_end: i64 = Timestamp::MIN;
        i = 0;
        while i < n
            invariant
                i <= n,
                n == taus@.len(),
                all_wf(taus@),
                max_end == max_end_of(taus@.take(i as int)),
            decreases n - i,
        {
            assert(taus@[i as int].wf());
            assert(taus@.take(i + 1).drop_last() =~= taus@.take(i as int));
            if taus[i].coords[0].hi > max_end {
                max_end = taus[i].coords[0].hi;
            }
            i = i + 1;
        }
        assert(taus@.take(n as int) =~= taus@);
        Some(Layer { id, min_start, max_end, taus: Arc::new(taus), written_at })
    }

    /// How many of the taus, which are sorted by start, start at or before `t`.
    fn starts_up_to(&self, t: Timestamp) -> (r: usize)
        requires
            self.wf(),
        ensures
            r <= self.taus@.len(),
            forall|i: int| 0 <= i < r ==> (#[trigger] self.taus@[i]).coords@[0].lo <= t,
            forall|i: int| r <= i < self.taus@.len() ==> (#[trigger] self.taus@[i]).coords@[0].lo > t,
    {
        let mut lo: usize = 0;
        let mut hi: usize = self.taus.len();
        while lo < hi
            invariant
                self.wf(),
                lo <= hi <= self.taus@.len(),
                forall|i: int| 0 <= i < lo ==> (#[trigger] self.taus@[i]).coords@[0].lo <= t,
                forall|i: int| hi <= i < self.taus@.len() ==> (#[trigger] self.taus@[i]).coords@[0].lo > t,
            decreases hi - lo,
        {
            let mid: usize = lo + (hi - lo) / 2;
            assert(self.taus@[mid as int].wf());
            if self.taus[mid].coords[0].lo <= t {
                assert forall|i: int| 0 <= i < mid + 1 implies (#[trigger] self.taus@[i]).coords@[0].lo
                    <= t by {
                    assert(self.taus@[i].wf());
                    if i < mid {
                        assert(self.taus@[i].at_most(&self.taus@[mid as int]));
                    }
                }
                lo = mid + 1;
            } else {
                assert forall|i: int| mid <= i < self.taus@.len() implies (#[trigger] self.taus@[i]).coords@[0].lo
                    > t by {
                    assert(self.taus@[i].wf());
                    if i > mid {
                        assert(self.taus@[mid as int].at_most(&self.taus@[i]));
                    }
                }
                hi = mid;
            }
        }
        lo
    }

    /// Lookup of a valid time by binary search.
    pub fn at(&self, t: Timestamp) -> (r: Option<&V>)
        requires
            self.wf(),
            self.flat(),
        ensures
            r is Some <==> value_at(self.taus@, t) is Some,
            r matches Some(v) ==> value_at(self.taus@, t) == Some(*v),
    {
        let ub: usize = self.starts_up_to(t);
        if ub == 0 {
            proof {
                assert forall|i: int| 0 <= i < self.taus@.len() implies !(#[trigger] self.taus@[i]).spans(
                    t,
                ) by {}
                lemma_value_at_none(self.taus@, t);
            }
            return None;
        }
        let i: usize = ub - 1;
        assert(self.taus@[i as int].wf());
        if self.taus[i].contains(t) {
            proof {
                lemma_value_at_only(self.taus@, t, i as int);
            }
            Some(&self.taus[i].value)
        } else {
            proof {
                assert forall|k: int| 0 <= k < self.taus@.len() implies !(#[trigger] self.taus@[k]).spans(
                    t,
                ) by {
                    if k < i {
                        assert(self.taus@[k].coords@[0].hi <= self.taus@[i as int].coords@[0].lo);
                    }
                }
                lemma_value_at_none(self.taus@, t);
            }
            None
        }
    }

    /// Lookup of a point, one coordinate per axis. The layer's bounds reject most
    /// points at once, and only taus that start at or before the point are looked at.
    pub fn at_nd(&self, ts: &[Timestamp]) -> (r: Option<&V>)
        requires
            self.wf(),
        ensures
            r is Some <==> self.hit(ts@) is Some,
            r matches Some(v) ==> self.hit(ts@) == Some(*v),
    {
        if ts.len() == 0 {
            proof {
                assert forall|i: int| 0 <= i < self.taus@.len() implies !(#[trigger] self.taus@[i]).covers(
                    ts@,
                ) by {
                    assert(self.taus@[i].wf());
                }
                lemma_no_hit(self.taus@, ts@);
            }
            return None;
        }
        let t0: i64 = ts[0];
        if t0 < self.min_start || t0 >= self.max_end {
            proof {
                assert forall|i: int| 0 <= i < self.taus@.len() implies !(#[trigger] self.taus@[i]).covers(
                    ts@,
                ) by {
                    lemma_bounds_hold(self.taus@, i);
                    if self.taus@[i].covers(ts@) {
                        assert(self.taus@[i].coords@[0].holds(ts@[0]));
                    }
                }
                lemma_no_hit(self.taus@, ts@);
            }
            return None;
        }
        let ub: usize = self.starts_up_to(t0);
        let mut i: usize = 0;
        while i < ub
            invariant
                i <= ub <= self.taus@.len(),
                self.wf(),
                ts@.len() > 0,
                t0 == ts@[0],
                forall|k: int| 0 <= k < i ==> !(#[trigger] self.taus@[k]).covers(ts@),
                forall|k: int| ub <= k < self.taus@.len() ==> (#[trigger] self.taus@[k]).coords@[0].lo > t0,
            decreases ub - i,
        {
            if self.taus[i].contains_point(ts) {
                proof {
                    lemma_hit_is_only(self.taus@, ts@, i as int);
                }
                return Some(&self.taus[i].value);
            }
            i = i + 1;
        }
        proof {
            assert forall|k: int| 0 <= k < self.taus@.len() implies !(#[trigger] self.taus@[k]).covers(
                ts@,
            ) by {
                if k >= ub && self.taus@[k].covers(ts@) {
                    assert(self.taus@[k].coords@[0].holds(ts@[0]));
                }
            }
            lemma_no_hit(self.taus@, ts@);
        }
        None
    }
}

} // verus!
