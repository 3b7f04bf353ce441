//! Taus and layers.

use libtau::model::{Layer, Tau, Timestamp};
use std::sync::Arc;

/// A small linear congruential generator, so that the cases are the same in every run.
struct Draw(u64);

impl Draw {
    fn next(&mut self) -> u64 {
        self.0 = self
            .0
            .wrapping_mul(6364136223846793005)
            .wrapping_add(1442695040888963407);
        self.0 >> 16
    }

    fn within(&mut self, lo: i64, hi: i64) -> i64 {
        lo + (self.next() % ((hi - lo) as u64 + 1)) as i64
    }
}

fn any_tau(d: &mut Draw) -> Tau<i32> {
    let start = d.within(-1_000_000, 1_000_000);
    let end = start + d.within(1, 1_000_000);
    Tau::new(start, end, d.next() as i32)
}

fn non_overlapping_taus(d: &mut Draw) -> Vec<Tau<i32>> {
    let n = d.within(0, 50);
    let mut taus = Vec::new();
    let mut cursor: i64 = 0;
    for _ in 0..n {
        let start = cursor + d.within(1, 50);
        let end = start + d.within(1, 100);
        taus.push(Tau::new(start, end, d.next() as i32));
        cursor = end;
    }
    taus
}

#[test]
fn pbt_tau_new_preserves_fields_for_any_valid_range() {
    let mut d = Draw(1);
    for _ in 0..200 {
        let t = any_tau(&mut d);
        assert!(t.coords.len() == 1);
        let bound = &t.coords[0];
        assert!(bound.lo < bound.hi);
    }
}

#[test]
fn pbt_tau_contains_iff_in_half_open_range() {
    let mut d = Draw(2);
    for _ in 0..200 {
        let t = any_tau(&mut d);
        for probe in [
            t.coords[0].lo - 1,
            t.coords[0].lo,
            t.coords[0].hi - 1,
            t.coords[0].hi,
            d.within(-2_000_000, 2_000_000),
            i64::MIN,
            i64::MAX,
        ] {
            let expected = t.coords[0].lo <= probe && probe < t.coords[0].hi;
            assert_eq!(t.contains(probe), expected);
        }
    }
}

#[test]
fn tau_try_new_nd_returns_none_for_empty_or_inverted() {
    assert!(Tau::try_new_nd(&[(0, 10)], 1i32).is_some());
    assert!(Tau::try_new_nd(&[(5, 5)], 1i32).is_none(), "empty interval");
    assert!(
        Tau::try_new_nd(&[(10, 5)], 1i32).is_none(),
        "inverted interval"
    );
}

#[test]
fn layer_try_new_at_returns_none_for_overlapping_taus() {
    assert!(
        Layer::try_new_at(1, vec![Tau::new(10, 20, 0i32), Tau::new(0, 10, 1i32)], 0).is_some()
    );
    assert!(
        Layer::try_new_at(1, vec![Tau::new(0, 15, 0i32), Tau::new(10, 20, 1i32)], 0).is_none(),
        "overlapping taus must be rejected"
    );
}

#[test]
fn pbt_layer_new_sorts_taus() {
    let mut d = Draw(3);
    for _ in 0..100 {
        let mut taus = non_overlapping_taus(&mut d);
        taus.reverse();
        let layer = Layer::new(1, taus);
        for w in layer.taus.windows(2) {
            assert!(
                w[0].coords[0].lo <= w[1].coords[0].lo,
                "taus must be sorted by start"
            );
        }
    }
}

#[test]
fn pbt_layer_bounds_match_first_and_last() {
    let mut d = Draw(4);
    for _ in 0..100 {
        let taus = non_overlapping_taus(&mut d);
        let layer = Layer::new(1, taus);
        let expected_min_start = layer
            .taus
            .first()
            .map_or(Timestamp::MAX, |t| t.coords[0].lo);
        let expected_max_end = layer.taus.last().map_or(Timestamp::MIN, |t| t.coords[0].hi);
        assert_eq!(layer.min_start, expected_min_start);
        assert_eq!(layer.max_end, expected_max_end);
    }
}

#[test]
fn pbt_layer_empty_has_sentinel_bounds() {
    let layer: Layer<i32> = Layer::new(1, vec![]);
    assert_eq!(layer.min_start, Timestamp::MAX);
    assert_eq!(layer.max_end, Timestamp::MIN);
    assert_eq!(layer.at(0), None);
}

#[test]
fn pbt_layer_at_matches_linear_scan() {
    let mut d = Draw(5);
    for _ in 0..200 {
        let taus = non_overlapping_taus(&mut d);
        let probe = d.within(-10_000, 10_000);
        let expected = taus
            .iter()
            .find(|tau| tau.coords[0].lo <= probe && probe < tau.coords[0].hi)
            .map(|tau| tau.value);
        let layer = Layer::new(1, taus);
        assert_eq!(layer.at(probe).copied(), expected);
        assert_eq!(layer.at_nd(&[probe]).copied(), expected);
    }
}

#[test]
fn layer_clone_shares_arc() {
    let layer = Layer::new(1, vec![Tau::new(0, 10, 42i32)]);
    let clone = layer.clone();
    assert!(Arc::ptr_eq(&layer.taus, &clone.taus));
}

fn nd(coords: &[(i64, i64)], v: i32) -> Tau<i32> {
    Tau::try_new_nd(coords, v).expect("valid nd tau")
}

#[test]
fn tau_try_new_nd_rejects_empty_and_inverted() {
    assert!(Tau::try_new_nd(&[], 0i32).is_none(), "no axes");
    assert!(Tau::try_new_nd(&[(0, 10), (5, 5)], 0i32).is_none(), "empty");
    assert!(
        Tau::try_new_nd(&[(0, 10), (7, 3)], 0i32).is_none(),
        "inverted"
    );
    assert_eq!(nd(&[(0, 10), (0, 100)], 1).arity(), 2);
}

#[test]
fn tau_contains_point_requires_every_axis() {
    let t = nd(&[(0, 10), (50, 60)], 7);
    assert!(t.contains_point(&[5, 55]));
    assert!(!t.contains_point(&[5, 60]), "axis 1 at hi is outside");
    assert!(!t.contains_point(&[10, 55]), "axis 0 at hi is outside");
    assert!(!t.contains_point(&[5]), "arity mismatch");
}

#[test]
fn tau_box_overlaps_needs_intersection_on_all_axes() {
    let a = nd(&[(0, 10), (0, 10)], 1);
    assert!(a.box_overlaps(&nd(&[(5, 15), (5, 15)], 2)));
    assert!(
        !a.box_overlaps(&nd(&[(5, 15), (10, 20)], 2)),
        "disjoint on axis 1"
    );
    assert!(!a.box_overlaps(&Tau::new(0, 10, 2)), "arity mismatch");
}

#[test]
fn layer_nd_allows_valid_time_overlap_rejects_box_overlap() {
    // Same valid window, disjoint on axis 1: allowed.
    let ok = Layer::try_new_nd_at(
        1,
        vec![nd(&[(0, 10), (0, 50)], 1), nd(&[(0, 10), (50, 100)], 2)],
        0,
    );
    let layer = ok.expect("disjoint boxes must build");
    assert_eq!(layer.at_nd(&[5, 25]), Some(&1));
    assert_eq!(layer.at_nd(&[5, 75]), Some(&2));
    assert_eq!(layer.at_nd(&[5, 100]), None);
    // Intersecting on every axis: rejected.
    assert!(
        Layer::try_new_nd_at(
            1,
            vec![nd(&[(0, 10), (0, 50)], 1), nd(&[(5, 15), (25, 75)], 2)],
            0,
        )
        .is_none()
    );
    // Mixed arity: rejected.
    assert!(
        Layer::try_new_nd_at(1, vec![nd(&[(0, 10), (0, 50)], 1), Tau::new(20, 30, 2)], 0)
            .is_none()
    );
}

#[test]
fn layer_nd_bounds_span_valid_axis() {
    let layer = Layer::try_new_nd_at(
        1,
        vec![nd(&[(5, 40), (0, 10)], 1), nd(&[(0, 20), (10, 20)], 2)],
        0,
    )
    .expect("boxes disjoint on axis 1");
    assert_eq!(layer.min_start, 0);
    assert_eq!(layer.max_end, 40, "max end is not the last tau's end");
}
