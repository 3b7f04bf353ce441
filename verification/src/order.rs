//! Rearrangements of sequences, and a verified stable sort.

use vstd::prelude::*;

verus! {

/// `b` holds the items of `a` in another order: position `k` of `b` comes from
/// position `from[k]` of `a`, and position `k` of `a` went to `to[k]` of `b`.
pub open spec fn linked<T>(a: Seq<T>, b: Seq<T>, from: Seq<int>, to: Seq<int>) -> bool {
    &&& a.len() == b.len()
    &&& from.len() == a.len()
    &&& to.len() == a.len()
    &&& forall|k: int| 0 <= k < a.len() ==> 0 <= #[trigger] from[k] < a.len() && to[from[k]] == k
        && b[k] == a[from[k]]
    &&& forall|k: int| 0 <= k < a.len() ==> 0 <= #[trigger] to[k] < a.len() && from[to[k]] == k
}

/// `b` is a permutation of `a`.
pub open spec fn rearranged<T>(a: Seq<T>, b: Seq<T>) -> bool {
    exists|from: Seq<int>, to: Seq<int>| linked(a, b, from, to)
}

/// A total preorder that executable code can test.
pub trait Rank: Sized {
    spec fn at_most(&self, other: &Self) -> bool;

    fn le(&self, other: &Self) -> (b: bool)
        ensures
            b == self.at_most(other),
    ;

    proof fn total(a: Self, b: Self)
        ensures
            a.at_most(&b) || b.at_most(&a),
    ;

    proof fn transitive(a: Self, b: Self, c: Self)
        requires
            a.at_most(&b),
            b.at_most(&c),
        ensures
            a.at_most(&c),
    ;
}

/// The items of `s` stand in ascending order.
pub open spec fn ascending<T: Rank>(s: Seq<T>) -> bool {
    forall|i: int, j: int|
        #![trigger s[i], s[j]]
        0 <= i < j < s.len() ==> s[i].at_most(&s[j])
}

/// Where an item goes when the one at `i` is taken out and put back at `j <= i`.
spec fn shifted(p: int, i: int, j: int) -> int {
    if p == i {
        j
    } else if j <= p < i {
        p + 1
    } else {
        p
    }
}

proof fn lemma_linked_move<T>(a: Seq<T>, b: Seq<T>, from: Seq<int>, to: Seq<int>, i: int, j: int)
    requires
        linked(a, b, from, to),
        0 <= j <= i < b.len(),
    ensures
        linked(
            a,
            b.remove(i).insert(j, b[i]),
            from.remove(i).insert(j, from[i]),
            Seq::new(to.len(), |k: int| shifted(to[k], i, j)),
        ),
{
    let b2 = b.remove(i).insert(j, b[i]);
    let from2 = from.remove(i).insert(j, from[i]);
    let to2 = Seq::new(to.len(), |k: int| shifted(to[k], i, j));
    assert forall|k: int| 0 <= k < a.len() implies 0 <= #[trigger] from2[k] < a.len()
        && to2[from2[k]] == k && b2[k] == a[from2[k]] by {
        let p = if k == j {
            i
        } else if j < k <= i {
            k - 1
        } else {
            k
        };
        assert(from2[k] == from[p]);
        assert(b2[k] == b[p]);
        assert(shifted(p, i, j) == k);
    }
    assert forall|k: int| 0 <= k < a.len() implies 0 <= #[trigger] to2[k] < a.len()
        && from2[to2[k]] == k by {
        let p = to[k];
        let q = shifted(p, i, j);
        assert(from[p] == k);
        assert(from2[q] == from[p]);
    }
}

/// Sorts `v` in place; items that rank alike keep their order.
pub fn sort_in_place<T: Rank>(v: &mut Vec<T>)
    ensures
        rearranged(old(v)@, final(v)@),
        ascending(final(v)@),
{
    let ghost orig = v@;
    let ghost mut from = Seq::new(v@.len(), |k: int| k);
    let ghost mut to = Seq::new(v@.len(), |k: int| k);
    let n: usize = v.len();
    let mut i: usize = 1;
    while i < n
        invariant
            1 <= i,
            n == v@.len(),
            i <= n || n == 0,
            linked(orig, v@, from, to),
            forall|p: int, q: int|
                #![trigger v@[p], v@[q]]
                0 <= p < q < i && q < n ==> v@[p].at_most(&v@[q]),
        decreases n - i,
    {
        let mut j: usize = i;
        while j > 0 && !v[j - 1].le(&v[i])
            invariant
                0 <= j <= i < n,
                n == v@.len(),
                forall|q: int| j <= q < i ==> !(#[trigger] v@[q]).at_most(&v@[i as int]),
            decreases j,
        {
            j = j - 1;
        }
        if j < i {
            let ghost before = v@;
            let item = v.remove(i);
            v.insert(j, item);
            proof {
                lemma_linked_move(orig, before, from, to, i as int, j as int);
                from = from.remove(i as int).insert(j as int, from[i as int]);
                to = Seq::new(to.len(), |k: int| shifted(to[k], i as int, j as int));
                assert(v@ =~= before.remove(i as int).insert(j as int, before[i as int]));
                let x = before[i as int];
                assert forall|p: int, q: int| #![trigger v@[p], v@[q]] 0 <= p < q < i + 1 implies v@[p].at_most(
                    &v@[q],
                ) by {
                    let pp = if p == j { i as int } else if p < j { p } else { p - 1 };
                    let qq = if q == j { i as int } else if q < j { q } else { q - 1 };
                    assert(v@[p] == before[pp]);
                    assert(v@[q] == before[qq]);
                    if p == j {
                        assert(!before[qq].at_most(&x));
                        T::total(before[qq], x);
                    } else if q == j {
                        if p < j - 1 {
                            assert(before[p].at_most(&before[j - 1]));
                            T::transitive(before[p], before[j - 1], x);
                        }
                    }
                }
            }
        } else {
            proof {
                assert forall|p: int, q: int| #![trigger v@[p], v@[q]] 0 <= p < q < i + 1 implies v@[p].at_most(
                    &v@[q],
                ) by {
                    if q == i && p < i - 1 {
                        T::transitive(v@[p], v@[i - 1], v@[i as int]);
                    }
                }
            }
        }
        i = i + 1;
    }
    assert(linked(orig, v@, from, to));
}

} // verus!
