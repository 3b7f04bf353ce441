//! The in-memory store: a stack of layers per lens.

use crate::exact::{share, Exact};
use crate::layers::{
    agree, compact_layers, compacted, law_compaction_never_grows, law_compaction_preserves_lookups,
    layers_get, newest, probe, scan_layers, stack_wf, traces, Segment,
};
use crate::model::{Datum, Layer, Timestamp};
use crate::names::{lists_keys, NameMap};
use std::sync::Arc;
use vstd::prelude::*;

verus! {

/// How many layers a lens may have before it is compacted, unless told otherwise.
pub const COMPACT_THRESHOLD: usize = 4;

/// Layer stacks by lens, oldest layer first.
pub type Stacks<V> = Map<Seq<char>, Seq<Layer<V>>>;

/// The stack of a lens; empty where it has none.
pub open spec fn stack_of<V>(stacks: Stacks<V>, lens: Seq<char>) -> Seq<Layer<V>> {
    if stacks.contains_key(lens) {
        stacks[lens]
    } else {
        Seq::empty()
    }
}

/// What appending `layer` makes of the stack `before`: the layer goes on top, and a stack
/// that is then taller than the threshold is compacted. The threshold 0 is never crossed.
pub open spec fn grown<V: Datum>(
    before: Seq<Layer<V>>,
    layer: Layer<V>,
    threshold: nat,
    after: Seq<Layer<V>>,
) -> bool {
    if threshold > 0 && before.len() + 1 > threshold {
        compacted(before.push(layer), after)
    } else {
        after == before.push(layer)
    }
}

/// How tall a stack may grow: in general, and of lenses with a threshold of their own.
#[verifier::ext_equal]
pub struct Limits {
    pub general: usize,
    pub own: Map<Seq<char>, usize>,
}

impl Limits {
    pub open spec fn of(self, lens: Seq<char>) -> nat {
        if self.own.contains_key(lens) {
            self.own[lens] as nat
        } else {
            self.general as nat
        }
    }
}

/// A store that keeps its layer stacks in memory.
#[derive(Debug)]
pub struct InMemory<V> {
    lenses: NameMap<Arc<Vec<Layer<V>>>>,
    compact_threshold: usize,
    lens_compact: NameMap<usize>,
}

impl<V> View for InMemory<V> {
    type V = Stacks<V>;

    closed spec fn view(&self) -> Stacks<V> {
        self.lenses@.map_values(|stack: Arc<Vec<Layer<V>>>| stack@)
    }
}

impl<V> Default for InMemory<V> {
    fn default() -> (r: Self)
        ensures
            r@ == Map::<Seq<char>, Seq<Layer<V>>>::empty(),
            r.limits() == (Limits { general: COMPACT_THRESHOLD, own: Map::empty() }),
    {
        InMemory::new()
    }
}

impl<V> InMemory<V> {
    #[verifier::type_invariant]
    spec fn inv(self) -> bool {
        forall|lens: Seq<char>| #[trigger]
            self.lenses@.contains_key(lens) ==> stack_wf(self.lenses@[lens]@)
    }

    /// The thresholds in force.
    pub closed spec fn limits(&self) -> Limits {
        Limits { general: self.compact_threshold, own: self.lens_compact@ }
    }

    /// The threshold that holds for a lens.
    pub open spec fn threshold(&self, lens: Seq<char>) -> nat {
        self.limits().of(lens)
    }

    /// An empty store with the usual threshold.
    pub fn new() -> (r: Self)
        ensures
            r@ == Map::<Seq<char>, Seq<Layer<V>>>::empty(),
            r.limits() == (Limits { general: COMPACT_THRESHOLD, own: Map::empty() }),
    {
        Self::with_threshold(COMPACT_THRESHOLD)
    }

    /// An empty store.
    pub fn with_threshold(compact_threshold: usize) -> (r: Self)
        ensures
            r@ == Map::<Seq<char>, Seq<Layer<V>>>::empty(),
            r.limits() == (Limits { general: compact_threshold, own: Map::empty() }),
    {
        let r = InMemory { lenses: NameMap::new(), compact_threshold, lens_compact: NameMap::new() };
        assert(r@ =~= Map::<Seq<char>, Seq<Layer<V>>>::empty());
        r
    }

    /// A snapshot of the stack of a lens; `None` where nothing was ever appended to it.
    pub fn layers(&self, lens: &str) -> (r: Option<Arc<Vec<Layer<V>>>>)
        ensures
            r is Some <==> self@.contains_key(lens@),
            r matches Some(stack) ==> stack@ == self@[lens@] && stack_wf(stack@),
    {
        proof {
            use_type_invariant(self);
        }
        match self.lenses.get(lens) {
            Some(stack) => Some(share(stack)),
            None => None,
        }
    }

    /// The lenses that have a stack.
    pub fn lens_names(&self) -> (r: Vec<String>)
        ensures
            lists_keys(r@, self@),
    {
        let r = self.lenses.names();
        assert forall|k: Seq<char>| #[trigger] self@.contains_key(k) <==> exists|i: int|
            0 <= i < r@.len() && (#[trigger] r@[i])@ == k by {
            assert(self@.contains_key(k) <==> self.lenses@.contains_key(k));
        }
        r
    }

    /// Forgets a lens and its threshold.
    pub fn drop_lens(&mut self, lens: &str)
        ensures
            final(self)@ == old(self)@.remove(lens@),
            final(self).limits() == (Limits {
                own: old(self).limits().own.remove(lens@),
                ..old(self).limits()
            }),
    {
        proof {
            use_type_invariant(&*self);
        }
        let mut lenses = NameMap::new();
        core::mem::swap(&mut self.lenses, &mut lenses);
        let _ = lenses.remove(lens);
        self.lenses = lenses;
        let mut lens_compact = NameMap::new();
        core::mem::swap(&mut self.lens_compact, &mut lens_compact);
        let _ = lens_compact.remove(lens);
        self.lens_compact = lens_compact;
        assert(self@ =~= old(self)@.remove(lens@));
    }

    /// Sets the threshold of one lens, or has it follow the store's.
    pub fn set_lens_compact_threshold(&mut self, lens: &str, threshold: Option<usize>)
        ensures
            final(self)@ == old(self)@,
            final(self).limits() == (Limits {
                own: match threshold {
                    Some(n) => old(self).limits().own.insert(lens@, n),
                    None => old(self).limits().own.remove(lens@),
                },
                ..old(self).limits()
            }),
    {
        proof {
            use_type_invariant(&*self);
        }
        let mut lens_compact = NameMap::new();
        core::mem::swap(&mut self.lens_compact, &mut lens_compact);
        match threshold {
            Some(n) => lens_compact.insert(lens, n),
            None => {
                let _ = lens_compact.remove(lens);
            },
        }
        self.lens_compact = lens_compact;
    }

    /// A copy that shares the stacks.
    pub fn dup(&self) -> (r: Self)
        ensures
            r@ == self@,
            r.limits() == self.limits(),
    {
        proof {
            use_type_invariant(self);
        }
        InMemory {
            lenses: self.lenses.dup(),
            compact_threshold: self.compact_threshold,
            lens_compact: self.lens_compact.dup(),
        }
    }
}

impl<V: Datum> InMemory<V> {
    /// Puts a layer on top of a lens's stack, compacting the stack where it has grown
    /// past the threshold. Tells whether that made it shorter than it would have been.
    pub fn append(&mut self, lens: &str, layer: Layer<V>) -> (r: bool)
        requires
            layer.wf(),
        ensures
            grown(
                stack_of(old(self)@, lens@),
                layer,
                old(self).threshold(lens@),
                stack_of(final(self)@, lens@),
            ),
            r == (stack_of(final(self)@, lens@).len() < stack_of(old(self)@, lens@).len() + 1),
            final(self)@ == old(self)@.insert(lens@, stack_of(final(self)@, lens@)),
            final(self).limits() == old(self).limits(),
    {
        proof {
            use_type_invariant(&*self);
        }
        let ghost before = stack_of(self@, lens@);
        let mut stack: Vec<Layer<V>> = match self.lenses.get(lens) {
            Some(layers) => copy_stack(layers),
            None => Vec::new(),
        };
        assert(stack@ =~= before);
        let prior: usize = stack.len();
        stack.push(layer);
        assert(stack_wf(stack@));
        let threshold: usize = match self.lens_compact.get(lens) {
            Some(n) => *n,
            None => self.compact_threshold,
        };
        let mut shorter: bool = false;
        if threshold > 0 && stack.len() > threshold {
            compact_layers(&mut stack);
            shorter = stack.len() <= prior;
        }
        let ghost after = stack@;
        let mut lenses = NameMap::new();
        core::mem::swap(&mut self.lenses, &mut lenses);
        lenses.insert(lens, Arc::new(stack));
        proof {
            assert forall|l: Seq<char>| #[trigger] lenses@.contains_key(l) implies stack_wf(
                lenses@[l]@,
            ) by {}
        }
        self.lenses = lenses;
        proof {
            assert(self@[lens@] == after);
            assert(self@ =~= old(self)@.insert(lens@, after));
        }
        shorter
    }

    /// The newest-wins value at a valid time.
    pub fn at(&self, lens: &str, t: Timestamp) -> (r: Option<V>)
        ensures
            r == newest(stack_of(self@, lens@), seq![t], None),
    {
        let point: Vec<Timestamp> = vec![t];
        assert(point@ =~= seq![t]);
        self.get(lens, &point, None)
    }

    /// The newest-wins value at a point, as of a transaction time where one is given.
    pub fn get(&self, lens: &str, coords: &[Timestamp], as_of: Option<i64>) -> (r: Option<V>)
        ensures
            r == newest(stack_of(self@, lens@), coords@, as_of),
    {
        proof {
            use_type_invariant(self);
        }
        match self.lenses.get(lens) {
            Some(stack) => layers_get(stack.as_slice(), coords, as_of),
            None => None,
        }
    }

    /// The newest-wins values over a window of valid time, the other axes held at `fixed`.
    pub fn scan(
        &self,
        lens: &str,
        start: Timestamp,
        end: Timestamp,
        fixed: &[Timestamp],
        as_of: Option<i64>,
    ) -> (r: Vec<Segment<V>>)
        ensures
            start >= end ==> r@.len() == 0,
            start < end ==> traces(
                r@,
                probe(stack_of(self@, lens@), fixed@, as_of),
                start as int,
                end as int,
            ),
    {
        proof {
            use_type_invariant(self);
        }
        match self.lenses.get(lens) {
            Some(stack) => scan_layers(stack.as_slice(), start, end, fixed, as_of),
            None => {
                let none: Vec<Layer<V>> = Vec::new();
                assert(none@ =~= stack_of(self@, lens@));
                scan_layers(none.as_slice(), start, end, fixed, as_of)
            },
        }
    }
}

fn copy_stack<V>(layers: &Vec<Layer<V>>) -> (r: Vec<Layer<V>>)
    ensures
        r@ == layers@,
{
    let mut out: Vec<Layer<V>> = Vec::new();
    let mut i: usize = 0;
    while i < layers.len()
        invariant
            i <= layers@.len(),
            out@ =~= layers@.take(i as int),
        decreases layers@.len() - i,
    {
        out.push(layers[i].clone());
        i = i + 1;
    }
    assert(layers@.take(layers@.len() as int) =~= layers@);
    out
}

/// After an append, every lookup sees the new layer on top of what was there, whether the
/// stack was compacted or not.
pub proof fn law_append_is_seen<V: Datum>(
    before: Seq<Layer<V>>,
    layer: Layer<V>,
    threshold: nat,
    after: Seq<Layer<V>>,
    ts: Seq<Timestamp>,
    as_of: Option<i64>,
)
    requires
        grown(before, layer, threshold, after),
    ensures
        agree(newest(after, ts, as_of), newest(before.push(layer), ts, as_of)),
        after.len() <= before.len() + 1,
{
    if threshold > 0 && before.len() + 1 > threshold {
        law_compaction_preserves_lookups(before.push(layer), after, ts, as_of);
        law_compaction_never_grows(before.push(layer), after);
    }
}

} // verus!
