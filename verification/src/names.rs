//! A map keyed by names.

use crate::exact::Exact;
use crate::order::{ascending, linked, sort_in_place};
use crate::text::{owned, same_text};
use vstd::prelude::*;

verus! {

/// No name occurs twice.
pub open spec fn distinct<T>(items: Seq<(String, T)>) -> bool {
    forall|i: int, j: int|
        #![trigger items[i], items[j]]
        0 <= i < items.len() && 0 <= j < items.len() && items[i].0@ == items[j].0@ ==> i == j
}

/// The items as a map.
pub open spec fn as_map<T>(items: Seq<(String, T)>) -> Map<Seq<char>, T>
    decreases items.len(),
{
    if items.len() == 0 {
        Map::empty()
    } else {
        as_map(items.drop_last()).insert(items.last().0@, items.last().1)
    }
}

proof fn lemma_as_map<T>(items: Seq<(String, T)>)
    requires
        distinct(items),
    ensures
        as_map(items).dom().finite(),
        as_map(items).len() == items.len(),
        forall|k: Seq<char>| #[trigger]
            as_map(items).contains_key(k) <==> exists|i: int|
                0 <= i < items.len() && (#[trigger] items[i]).0@ == k,
        forall|i: int|
            0 <= i < items.len() ==> as_map(items)[(#[trigger] items[i]).0@] == items[i].1,
    decreases items.len(),
{
    if items.len() > 0 {
        let front = items.drop_last();
        let n = items.len() as int;
        assert forall|i: int, j: int|
            #![trigger front[i], front[j]]
            0 <= i < front.len() && 0 <= j < front.len() && front[i].0@ == front[j].0@ implies i
            == j by {
            assert(items[i].0@ == items[j].0@);
        }
        lemma_as_map(front);
        assert(!as_map(front).contains_key(items.last().0@)) by {
            if as_map(front).contains_key(items.last().0@) {
                let i = choose|i: int|
                    0 <= i < front.len() && (#[trigger] front[i]).0@ == items.last().0@;
                assert(items[i].0@ == items[n - 1].0@);
            }
        }
        assert forall|k: Seq<char>| #[trigger] as_map(items).contains_key(k) <==> exists|i: int|
            0 <= i < items.len() && (#[trigger] items[i]).0@ == k by {
            if as_map(items).contains_key(k) {
                if k == items.last().0@ {
                    assert(items[n - 1].0@ == k);
                } else {
                    assert(as_map(front).contains_key(k));
                    let i = choose|i: int| 0 <= i < front.len() && (#[trigger] front[i]).0@ == k;
                    assert(items[i].0@ == k);
                }
            }
            if exists|i: int| 0 <= i < items.len() && (#[trigger] items[i]).0@ == k {
                let i = choose|i: int| 0 <= i < items.len() && (#[trigger] items[i]).0@ == k;
                if i < n - 1 {
                    assert(front[i].0@ == k);
                    assert(as_map(front).contains_key(k));
                }
            }
        }
        assert forall|i: int| 0 <= i < items.len() implies as_map(items)[(#[trigger] items[i]).0@]
            == items[i].1 by {
            if i < n - 1 {
                assert(front[i] == items[i]);
                assert(as_map(front)[front[i].0@] == front[i].1);
                assert(items[i].0@ != items[n - 1].0@);
            }
        }
    }
}

/// A map from names to values.
#[derive(Debug)]
pub struct NameMap<T> {
    items: Vec<(String, T)>,
}

impl<T> View for NameMap<T> {
    type V = Map<Seq<char>, T>;

    closed spec fn view(&self) -> Map<Seq<char>, T> {
        as_map(self.items@)
    }
}

/// A name is in the list.
pub open spec fn listed(names: Seq<String>, name: Seq<char>) -> bool {
    exists|i: int| 0 <= i < names.len() && (#[trigger] names[i])@ == name
}

/// The names are in byte order, each once.
pub open spec fn in_name_order(names: Seq<String>) -> bool {
    &&& ascending(names)
    &&& forall|i: int, j: int|
        #![trigger names[i], names[j]]
        0 <= i < names.len() && 0 <= j < names.len() && names[i]@ == names[j]@ ==> i == j
}

/// `out` lists the keys of `m`, each once, in byte order.
pub open spec fn lists_keys<T>(out: Seq<String>, m: Map<Seq<char>, T>) -> bool {
    &&& in_name_order(out)
    &&& forall|k: Seq<char>| #[trigger] m.contains_key(k) <==> listed(out, k)
}

impl<T> NameMap<T> {
    #[verifier::type_invariant]
    spec fn inv(self) -> bool {
        distinct(self.items@)
    }

    pub fn new() -> (r: Self)
        ensures
            r@ == Map::<Seq<char>, T>::empty(),
    {
        NameMap { items: Vec::new() }
    }

    pub fn len(&self) -> (r: usize)
        ensures
            r == self@.len(),
            self@.dom().finite(),
    {
        proof {
            use_type_invariant(self);
            lemma_as_map(self.items@);
        }
        self.items.len()
    }

    fn position(&self, name: &str) -> (r: Option<usize>)
        ensures
            r matches Some(i) ==> i < self.items@.len() && self.items@[i as int].0@ == name@
                && self@.contains_key(name@) && self@[name@] == self.items@[i as int].1,
            r is None ==> !self@.contains_key(name@),
            r is None ==> forall|k: int|
                0 <= k < self.items@.len() ==> (#[trigger] self.items@[k]).0@ != name@,
    {
        proof {
            use_type_invariant(self);
            lemma_as_map(self.items@);
        }
        let mut i: usize = 0;
        while i < self.items.len()
            invariant
                i <= self.items@.len(),
                distinct(self.items@),
                forall|k: int| 0 <= k < i ==> (#[trigger] self.items@[k]).0@ != name@,
            decreases self.items@.len() - i,
        {
            if same_text(self.items[i].0.as_str(), name) {
                proof {
                    lemma_as_map(self.items@);
                }
                return Some(i);
            }
            i = i + 1;
        }
        None
    }

    pub fn contains_key(&self, name: &str) -> (r: bool)
        ensures
            r == self@.contains_key(name@),
    {
        match self.position(name) {
            Some(_) => true,
            None => false,
        }
    }

    pub fn get(&self, name: &str) -> (r: Option<&T>)
        ensures
            r is Some <==> self@.contains_key(name@),
            r matches Some(v) ==> *v == self@[name@],
    {
        match self.position(name) {
            Some(i) => Some(&self.items[i].1),
            None => None,
        }
    }

    /// Binds `name` to `value`, in place of what it was bound to.
    pub fn insert(&mut self, name: &str, value: T)
        ensures
            final(self)@ == old(self)@.insert(name@, value),
    {
        let at = self.position(name);
        proof {
            use_type_invariant(&*self);
        }
        let ghost before = self.items@;
        let mut items: Vec<(String, T)> = Vec::new();
        core::mem::swap(&mut self.items, &mut items);
        proof {
            lemma_as_map(before);
        }
        match at {
            Some(i) => {
                let key = items[i].0.clone();
                items.set(i, (key, value));
                proof {
                    assert(items@ =~= before.update(i as int, (key, value)));
                    assert forall|p: int, q: int|
                        #![trigger items@[p], items@[q]]
                        0 <= p < items@.len() && 0 <= q < items@.len() && items@[p].0@
                            == items@[q].0@ implies p == q by {
                        assert(before[p].0@ == before[q].0@);
                    }
                    lemma_as_map(items@);
                    let after = before.update(i as int, (key, value));
                    assert(as_map(items@) =~= as_map(before).insert(name@, value)) by {
                        assert forall|k: Seq<char>| as_map(items@).contains_key(k)
                            == as_map(before).insert(name@, value).contains_key(k) by {
                            if as_map(items@).contains_key(k) {
                                let p = choose|p: int|
                                    0 <= p < items@.len() && (#[trigger] items@[p]).0@ == k;
                                assert(before[p].0@ == k);
                            }
                            if as_map(before).contains_key(k) {
                                let p = choose|p: int|
                                    0 <= p < before.len() && (#[trigger] before[p]).0@ == k;
                                assert(items@[p].0@ == k);
                            }
                        }
                        assert forall|k: Seq<char>| as_map(items@).contains_key(k) implies as_map(
                            items@,
                        )[k] == as_map(before).insert(name@, value)[k] by {
                            let p = choose|p: int|
                                0 <= p < items@.len() && (#[trigger] items@[p]).0@ == k;
                            assert(as_map(items@)[items@[p].0@] == items@[p].1);
                            assert(before[p].0@ == k);
                            if p != i {
                                assert(before[p] == items@[p]);
                                assert(before[p].0@ != before[i as int].0@);
                            }
                        }
                    }
                }
            },
            None => {
                items.push((owned(name), value));
                proof {
                    assert(items@.drop_last() =~= before);
                    assert forall|p: int, q: int|
                        #![trigger items@[p], items@[q]]
                        0 <= p < items@.len() && 0 <= q < items@.len() && items@[p].0@
                            == items@[q].0@ implies p == q by {
                        if p < before.len() {
                            assert(before[p].0@ != name@);
                        }
                        if q < before.len() {
                            assert(before[q].0@ != name@);
                        }
                        if p < before.len() && q < before.len() {
                            assert(before[p].0@ == before[q].0@);
                        }
                    }
                }
            },
        }
        self.items = items;
    }

    /// Unbinds `name`; the value that it was bound to.
    pub fn remove(&mut self, name: &str) -> (r: Option<T>)
        ensures
            final(self)@ == old(self)@.remove(name@),
            r is Some <==> old(self)@.contains_key(name@),
            r matches Some(v) ==> v == old(self)@[name@],
    {
        let at = self.position(name);
        proof {
            use_type_invariant(&*self);
        }
        let ghost before = self.items@;
        match at {
            Some(i) => {
                let mut items: Vec<(String, T)> = Vec::new();
                core::mem::swap(&mut self.items, &mut items);
                let (_, value) = items.remove(i);
                proof {
                    lemma_as_map(before);
                    assert(items@ =~= before.remove(i as int));
                    assert forall|p: int, q: int|
                        #![trigger items@[p], items@[q]]
                        0 <= p < items@.len() && 0 <= q < items@.len() && items@[p].0@
                            == items@[q].0@ implies p == q by {
                        let pp = if p < i { p } else { p + 1 };
                        let qq = if q < i { q } else { q + 1 };
                        assert(before[pp].0@ == before[qq].0@);
                    }
                    lemma_as_map(items@);
                    assert(as_map(items@) =~= as_map(before).remove(name@)) by {
                        assert forall|k: Seq<char>| as_map(items@).contains_key(k)
                            == as_map(before).remove(name@).contains_key(k) by {
                            if as_map(items@).contains_key(k) {
                                let p = choose|p: int|
                                    0 <= p < items@.len() && (#[trigger] items@[p]).0@ == k;
                                let pp = if p < i { p } else { p + 1 };
                                assert(before[pp].0@ == k);
                                if k == name@ {
                                    assert(before[pp].0@ == before[i as int].0@);
                                }
                            }
                            if as_map(before).remove(name@).contains_key(k) {
                                let p = choose|p: int|
                                    0 <= p < before.len() && (#[trigger] before[p]).0@ == k;
                                assert(p != i);
                                let pp = if p < i { p } else { p - 1 };
                                assert(items@[pp].0@ == k);
                            }
                        }
                        assert forall|k: Seq<char>| as_map(items@).contains_key(k) implies as_map(
                            items@,
                        )[k] == as_map(before).remove(name@)[k] by {
                            let p = choose|p: int|
                                0 <= p < items@.len() && (#[trigger] items@[p]).0@ == k;
                            let pp = if p < i { p } else { p + 1 };
                            assert(items@[p] == before[pp]);
                            assert(as_map(items@)[items@[p].0@] == items@[p].1);
                            assert(as_map(before)[before[pp].0@] == before[pp].1);
                        }
                    }
                }
                self.items = items;
                Some(value)
            },
            None => {
                assert(self@.remove(name@) =~= self@);
                None
            },
        }
    }

    /// The names, each once, in byte order.
    pub fn names(&self) -> (r: Vec<String>)
        ensures
            lists_keys(r@, self@),
    {
        proof {
            use_type_invariant(self);
            lemma_as_map(self.items@);
        }
        let mut out: Vec<String> = Vec::new();
        let mut i: usize = 0;
        while i < self.items.len()
            invariant
                i <= self.items@.len(),
                out@.len() == i,
                forall|k: int| 0 <= k < i ==> #[trigger] out@[k] == self.items@[k].0,
            decreases self.items@.len() - i,
        {
            out.push(self.items[i].0.clone());
            i = i + 1;
        }
        let ghost before = out@;
        sort_in_place(&mut out);
        proof {
            let (from, to) = choose|from: Seq<int>, to: Seq<int>| linked(before, out@, from, to);
            assert forall|p: int, q: int|
                #![trigger out@[p], out@[q]]
                0 <= p < out@.len() && 0 <= q < out@.len() && out@[p]@ == out@[q]@ implies p == q by {
                assert(out@[p] == before[from[p]] && out@[q] == before[from[q]]);
                assert(self.items@[from[p]].0@ == self.items@[from[q]].0@);
                assert(from[p] == from[q]);
                assert(to[from[p]] == p && to[from[q]] == q);
            }
            assert forall|k: Seq<char>| #[trigger] self@.contains_key(k) <==> listed(out@, k) by {
                if self@.contains_key(k) {
                    let p = choose|p: int|
                        0 <= p < self.items@.len() && (#[trigger] self.items@[p]).0@ == k;
                    assert(0 <= to[p] < out@.len());
                    assert(from[to[p]] == p);
                    assert(out@[to[p]] == before[p]);
                    assert(out@[to[p]]@ == k);
                }
                if listed(out@, k) {
                    let p = choose|i: int| 0 <= i < out@.len() && (#[trigger] out@[i])@ == k;
                    assert(out@[p] == before[from[p]]);
                    assert(self.items@[from[p]].0@ == k);
                }
            }
        }
        out
    }
}

impl<T: Exact> NameMap<T> {
    /// A copy with the same bindings.
    pub fn dup(&self) -> (r: Self)
        ensures
            r@ == self@,
    {
        proof {
            use_type_invariant(self);
        }
        let mut items: Vec<(String, T)> = Vec::new();
        let mut i: usize = 0;
        while i < self.items.len()
            invariant
                i <= self.items@.len(),
                items@ =~= self.items@.take(i as int),
            decreases self.items@.len() - i,
        {
            items.push((self.items[i].0.clone(), self.items[i].1.dup()));
            i = i + 1;
        }
        assert(items@ =~= self.items@);
        NameMap { items }
    }
}

} // verus!
