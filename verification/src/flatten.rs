//! Layers as run entries, in the order in which a run holds them, and the proof that what
//! is rebuilt from them answers every lookup as the layers did.

use crate::exact::Exact;
use crate::layers::{newest, stack_wf, visible};
use crate::memory::{stack_of, Stacks};
use crate::model::{
    lemma_hit_is_only, lemma_no_hit, one_arity, Bound, Datum, Layer, LayerId, Tau, Timestamp,
};
use crate::names::{listed, lists_keys, NameMap};
use crate::order::{ascending, linked, rearranged, sort_in_place, Rank};
use crate::rebuild::{
    boxes_meet, copy_coords, group_of, is_live, layer_like, makes_layer, rebuilt, taus_like,
};
use crate::run::RunEntry;
use crate::text::{same_text, text_at_most};
use vstd::prelude::*;

verus! {

/// The epoch of a lens; 0 where none was noted.
pub open spec fn epoch_of(epochs: Map<Seq<char>, u64>, lens: Seq<char>) -> u64 {
    if epochs.contains_key(lens) {
        epochs[lens]
    } else {
        0
    }
}

/// Where an entry comes from: the lens, the place of the layer in the stack, and the place
/// of the tau in the layer.
pub type Origin = (Seq<char>, int, int);

pub open spec fn is_origin<V>(stacks: Stacks<V>, o: Origin) -> bool {
    &&& stacks.contains_key(o.0)
    &&& 0 <= o.1 < stacks[o.0].len()
    &&& 0 <= o.2 < stacks[o.0][o.1].taus@.len()
}

/// The entry says what the tau at its origin says.
pub open spec fn entry_says<V>(
    e: RunEntry<V>,
    stacks: Stacks<V>,
    epochs: Map<Seq<char>, u64>,
    o: Origin,
) -> bool {
    let layer = stacks[o.0][o.1];
    &&& e.lens@ == o.0
    &&& e.layer_id == layer.id
    &&& e.written_at == layer.written_at
    &&& e.epoch == epoch_of(epochs, o.0)
    &&& e.coords@ == layer.taus@[o.2].coords@
    &&& e.value == layer.taus@[o.2].value
}

/// The entries come from the stacks, one for each tau.
pub open spec fn comes_from<V>(
    entries: Seq<RunEntry<V>>,
    stacks: Stacks<V>,
    epochs: Map<Seq<char>, u64>,
    origins: Seq<Origin>,
) -> bool {
    &&& origins.len() == entries.len()
    &&& forall|q: int|
        0 <= q < entries.len() ==> is_origin(stacks, #[trigger] origins[q]) && entry_says(
            entries[q],
            stacks,
            epochs,
            origins[q],
        )
    &&& forall|p: int, q: int|
        #![trigger origins[p], origins[q]]
        0 <= p < origins.len() && 0 <= q < origins.len() && origins[p] == origins[q] ==> p == q
    &&& forall|o: Origin| #[trigger]
        is_origin(stacks, o) ==> exists|q: int| 0 <= q < origins.len() && #[trigger] origins[q] == o
}

/// The entries are those of the stacks, in the order of runs.
pub open spec fn flattened<V>(
    entries: Seq<RunEntry<V>>,
    stacks: Stacks<V>,
    epochs: Map<Seq<char>, u64>,
) -> bool {
    &&& ascending(entries)
    &&& exists|origins: Seq<Origin>| #[trigger] comes_from(entries, stacks, epochs, origins)
}

/// The order of the axes behind the first: lexicographic, each by its start and then by
/// its end.
pub open spec fn axes_at_most(a: Seq<Bound>, b: Seq<Bound>) -> bool
    decreases a.len(),
{
    if a.len() == 0 {
        true
    } else if b.len() == 0 {
        false
    } else if a[0].lo != b[0].lo {
        a[0].lo < b[0].lo
    } else if a[0].hi != b[0].hi {
        a[0].hi < b[0].hi
    } else {
        axes_at_most(a.drop_first(), b.drop_first())
    }
}

proof fn lemma_axes_total(a: Seq<Bound>, b: Seq<Bound>)
    ensures
        axes_at_most(a, b) || axes_at_most(b, a),
        axes_at_most(a, b) && axes_at_most(b, a) ==> a == b,
    decreases a.len(),
{
    if a.len() > 0 && b.len() > 0 {
        lemma_axes_total(a.drop_first(), b.drop_first());
        if axes_at_most(a, b) && axes_at_most(b, a) {
            assert(a =~= seq![a[0]] + a.drop_first());
            assert(b =~= seq![b[0]] + b.drop_first());
            assert(a[0] == b[0]);
        }
    } else {
        assert(a.len() == 0 && b.len() == 0 ==> a =~= b);
    }
}

proof fn lemma_axes_transitive(a: Seq<Bound>, b: Seq<Bound>, c: Seq<Bound>)
    requires
        axes_at_most(a, b),
        axes_at_most(b, c),
    ensures
        axes_at_most(a, c),
    decreases a.len(),
{
    if a.len() > 0 {
        assert(b.len() > 0 && c.len() > 0);
        if a[0] == b[0] && b[0] == c[0] {
            lemma_axes_transitive(a.drop_first(), b.drop_first(), c.drop_first());
        }
    }
}

pub open spec fn first_lo(coords: Seq<Bound>) -> int {
    if coords.len() == 0 {
        i64::MIN as int
    } else {
        coords[0].lo as int
    }
}

pub open spec fn other_axes(coords: Seq<Bound>) -> Seq<Bound> {
    if coords.len() == 0 {
        coords
    } else {
        coords.drop_first()
    }
}

/// The order of entries in a run: by lens, by the start on the valid-time axis, by the
/// other axes, and the newest first.
pub open spec fn entry_at_most<V>(a: RunEntry<V>, b: RunEntry<V>) -> bool {
    if a.lens@ != b.lens@ {
        text_at_most(a.lens@, b.lens@)
    } else if first_lo(a.coords@) != first_lo(b.coords@) {
        first_lo(a.coords@) < first_lo(b.coords@)
    } else if other_axes(a.coords@) != other_axes(b.coords@) {
        axes_at_most(other_axes(a.coords@), other_axes(b.coords@))
    } else {
        a.written_at >= b.written_at
    }
}

fn axes_le(a: &Vec<Bound>, b: &Vec<Bound>) -> (r: (bool, bool))
    ensures
        r.0 == (other_axes(a@) == other_axes(b@)),
        r.1 == axes_at_most(other_axes(a@), other_axes(b@)),
{
    let ghost x = other_axes(a@);
    let ghost y = other_axes(b@);
    let mut i: usize = 1;
    proof {
        assert(x.skip(0) =~= x);
        assert(y.skip(0) =~= y);
        lemma_axes_total(x, y);
    }
    while i < a.len() && i < b.len() && a[i].lo == b[i].lo && a[i].hi == b[i].hi
        invariant
            1 <= i,
            x == other_axes(a@),
            y == other_axes(b@),
            a@.len() > 0 ==> i <= a@.len(),
            b@.len() > 0 ==> i <= b@.len(),
            a@.len() == 0 || b@.len() == 0 ==> i == 1,
            forall|k: int| 0 <= k < i - 1 ==> x[k] == y[k],
            axes_at_most(x, y) == axes_at_most(x.skip(i - 1), y.skip(i - 1)),
        decreases a@.len() - i,
    {
        proof {
            assert(x.skip(i - 1).drop_first() =~= x.skip(i as int));
            assert(y.skip(i - 1).drop_first() =~= y.skip(i as int));
            assert(x[i - 1] == a@[i as int]);
            assert(y[i - 1] == b@[i as int]);
        }
        i = i + 1;
    }
    if i >= a.len() {
        if i >= b.len() {
            assert(x =~= y);
            (true, true)
        } else {
            assert(x.len() < y.len());
            (false, true)
        }
    } else if i >= b.len() {
        assert(y.len() < x.len());
        (false, false)
    } else {
        proof {
            assert(x[i - 1] == a@[i as int]);
            assert(y[i - 1] == b@[i as int]);
            assert(x.skip(i - 1)[0] == x[i - 1]);
            assert(y.skip(i - 1)[0] == y[i - 1]);
        }
        if a[i].lo != b[i].lo {
            (false, a[i].lo < b[i].lo)
        } else {
            (false, a[i].hi < b[i].hi)
        }
    }
}

fn lo_of(coords: &Vec<Bound>) -> (r: i64)
    ensures
        r == first_lo(coords@),
{
    if coords.len() == 0 {
        i64::MIN
    } else {
        coords[0].lo
    }
}

impl<V> Rank for RunEntry<V> {
    open spec fn at_most(&self, other: &Self) -> bool {
        entry_at_most(*self, *other)
    }

    fn le(&self, other: &Self) -> (b: bool) {
        if !same_text(self.lens.as_str(), other.lens.as_str()) {
            return Rank::le(&self.lens, &other.lens);
        }
        let (x, y) = (lo_of(&self.coords), lo_of(&other.coords));
        if x != y {
            return x < y;
        }
        let (same, less) = axes_le(&self.coords, &other.coords);
        if !same {
            return less;
        }
        self.written_at >= other.written_at
    }

    proof fn total(a: Self, b: Self) {
        String::total(a.lens, b.lens);
        lemma_axes_total(other_axes(a.coords@), other_axes(b.coords@));
    }

    proof fn transitive(a: Self, b: Self, c: Self) {
        if a.lens@ != b.lens@ && b.lens@ != c.lens@ {
            String::transitive(a.lens, b.lens, c.lens);
            if a.lens@ == c.lens@ {
                crate::text::lemma_text_antisymmetric(a.lens@, b.lens@);
            }
        }
        let (x, y, z) = (other_axes(a.coords@), other_axes(b.coords@), other_axes(c.coords@));
        if a.lens@ == b.lens@ && b.lens@ == c.lens@ && x != y && y != z && axes_at_most(x, y)
            && axes_at_most(y, z) {
            lemma_axes_transitive(x, y, z);
            if x == z {
                lemma_axes_total(x, y);
            }
        }
    }
}

/// The origin comes before the `k`-th tau of the `i`-th layer of the `j`-th lens.
spec fn passed(names: Seq<String>, j: int, i: int, k: int, o: Origin) -> bool {
    ||| exists|x: int| 0 <= x < j && (#[trigger] names[x])@ == o.0
    ||| j < names.len() && o.0 == names[j]@ && (o.1 < i || (o.1 == i && o.2 < k))
}

/// The entries are those of the origins that were passed.
spec fn so_far<V>(
    out: Seq<RunEntry<V>>,
    stacks: Stacks<V>,
    epochs: Map<Seq<char>, u64>,
    origins: Seq<Origin>,
    names: Seq<String>,
    j: int,
    i: int,
    k: int,
) -> bool {
    &&& origins.len() == out.len()
    &&& forall|q: int|
        0 <= q < out.len() ==> is_origin(stacks, #[trigger] origins[q]) && entry_says(
            out[q],
            stacks,
            epochs,
            origins[q],
        ) && passed(names, j, i, k, origins[q])
    &&& forall|p: int, q: int|
        #![trigger origins[p], origins[q]]
        0 <= p < origins.len() && 0 <= q < origins.len() && origins[p] == origins[q] ==> p == q
    &&& forall|o: Origin| #[trigger]
        is_origin(stacks, o) && passed(names, j, i, k, o) ==> exists|q: int|
            0 <= q < origins.len() && #[trigger] origins[q] == o
}

proof fn lemma_one_more<V>(
    out: Seq<RunEntry<V>>,
    stacks: Stacks<V>,
    epochs: Map<Seq<char>, u64>,
    origins: Seq<Origin>,
    names: Seq<String>,
    j: int,
    i: int,
    k: int,
    e: RunEntry<V>,
)
    requires
        lists_keys(names, stacks),
        so_far(out, stacks, epochs, origins, names, j, i, k),
        0 <= j < names.len(),
        is_origin(stacks, (names[j]@, i, k)),
        entry_says(e, stacks, epochs, (names[j]@, i, k)),
    ensures
        so_far(
            out.push(e),
            stacks,
            epochs,
            origins.push((names[j]@, i, k)),
            names,
            j,
            i,
            k + 1,
        ),
{
    let o = (names[j]@, i, k);
    let more = origins.push(o);
    assert(!passed(names, j, i, k, o)) by {
        if exists|x: int| 0 <= x < j && (#[trigger] names[x])@ == o.0 {
            let x = choose|x: int| 0 <= x < j && (#[trigger] names[x])@ == o.0;
            assert(names[x]@ == names[j]@);
        }
    }
    assert forall|q: int| 0 <= q < out.push(e).len() implies is_origin(stacks, #[trigger] more[q])
        && entry_says(out.push(e)[q], stacks, epochs, more[q]) && passed(
        names,
        j,
        i,
        k + 1,
        more[q],
    ) by {
        if q < out.len() {
            assert(more[q] == origins[q]);
        }
    }
    assert forall|p: int, q: int|
        #![trigger more[p], more[q]]
        0 <= p < more.len() && 0 <= q < more.len() && more[p] == more[q] implies p == q by {
        if p < out.len() {
            assert(more[p] == origins[p]);
        }
        if q < out.len() {
            assert(more[q] == origins[q]);
        }
    }
    assert forall|x: Origin| #[trigger]
        is_origin(stacks, x) && passed(names, j, i, k + 1, x) implies exists|q: int|
        0 <= q < more.len() && #[trigger] more[q] == x by {
        if passed(names, j, i, k, x) {
            let q = choose|q: int| 0 <= q < origins.len() && #[trigger] origins[q] == x;
            assert(more[q] == x);
        } else {
            assert(x == o);
            assert(more[out.len() as int] == x);
        }
    }
}

/// What was passed at the end of a layer, and at the start of the next.
proof fn lemma_next_place<V>(
    out: Seq<RunEntry<V>>,
    stacks: Stacks<V>,
    epochs: Map<Seq<char>, u64>,
    origins: Seq<Origin>,
    names: Seq<String>,
    j: int,
    i: int,
    k: int,
    j2: int,
    i2: int,
)
    requires
        so_far(out, stacks, epochs, origins, names, j, i, k),
        forall|o: Origin| #[trigger]
            is_origin(stacks, o) ==> (passed(names, j, i, k, o) <==> passed(names, j2, i2, 0, o)),
    ensures
        so_far(out, stacks, epochs, origins, names, j2, i2, 0),
{
    assert forall|q: int| 0 <= q < out.len() implies is_origin(stacks, #[trigger] origins[q])
        && entry_says(out[q], stacks, epochs, origins[q]) && passed(
        names,
        j2,
        i2,
        0,
        origins[q],
    ) by {}
}

pub open spec fn stacks_view<V>(memtable: Map<Seq<char>, Vec<Layer<V>>>) -> Stacks<V> {
    memtable.map_values(|s: Vec<Layer<V>>| s@)
}

pub open spec fn stacks_wf<V>(stacks: Stacks<V>) -> bool {
    forall|lens: Seq<char>| #[trigger] stacks.contains_key(lens) ==> stack_wf(stacks[lens])
}

/// The entries of the stacks, in the order of runs.
pub fn flatten<V: Datum>(memtable: &NameMap<Vec<Layer<V>>>, epochs: &NameMap<u64>) -> (r: Vec<
    RunEntry<V>,
>)
    ensures
        flattened(r@, stacks_view(memtable@), epochs@),
{
    let ghost stacks = stacks_view(memtable@);
    let names = memtable.names();
    let mut out: Vec<RunEntry<V>> = Vec::new();
    let ghost mut origins: Seq<Origin> = Seq::empty();
    let mut j: usize = 0;
    proof {
        assert forall|k: Seq<char>| #[trigger] stacks.contains_key(k) <==> listed(names@, k) by {
            assert(stacks.contains_key(k) <==> memtable@.contains_key(k));
        }
    }
    while j < names.len()
        invariant
            j <= names@.len(),
            stacks == stacks_view(memtable@),
            lists_keys(names@, stacks),
            so_far(out@, stacks, epochs@, origins, names@, j as int, 0, 0),
        decreases names@.len() - j,
    {
        let name = names[j].as_str();
        proof {
            assert(listed(names@, names@[j as int]@));
            assert(stacks.contains_key(name@));
        }
        if let Some(stack) = memtable.get(name) {
            let epoch: u64 = match epochs.get(name) {
                Some(e) => *e,
                None => 0,
            };
            let mut i: usize = 0;
            while i < stack.len()
                invariant
                    j < names@.len(),
                    name@ == names@[j as int]@,
                    i <= stack@.len(),
                    stacks == stacks_view(memtable@),
                    lists_keys(names@, stacks),
                    stacks.contains_key(name@),
                    stack@ == stacks[name@],
                    epoch == epoch_of(epochs@, name@),
                    so_far(out@, stacks, epochs@, origins, names@, j as int, i as int, 0),
                decreases stack@.len() - i,
            {
                let layer = &stack[i];
                let mut k: usize = 0;
                while k < layer.taus.len()
                    invariant
                        j < names@.len(),
                        name@ == names@[j as int]@,
                        i < stack@.len(),
                        *layer == stack@[i as int],
                        k <= layer.taus@.len(),
                        lists_keys(names@, stacks),
                        stacks.contains_key(name@),
                        stack@ == stacks[name@],
                        epoch == epoch_of(epochs@, name@),
                        so_far(out@, stacks, epochs@, origins, names@, j as int, i as int, k as int),
                    decreases layer.taus@.len() - k,
                {
                    let tau = &layer.taus[k];
                    let e = RunEntry {
                        lens: names[j].clone(),
                        layer_id: layer.id,
                        written_at: layer.written_at,
                        epoch,
                        coords: copy_coords(&tau.coords),
                        value: tau.value.dup(),
                    };
                    proof {
                        lemma_one_more(
                            out@,
                            stacks,
                            epochs@,
                            origins,
                            names@,
                            j as int,
                            i as int,
                            k as int,
                            e,
                        );
                        origins = origins.push((names@[j as int]@, i as int, k as int));
                    }
                    out.push(e);
                    k = k + 1;
                }
                proof {
                    lemma_next_place(
                        out@,
                        stacks,
                        epochs@,
                        origins,
                        names@,
                        j as int,
                        i as int,
                        k as int,
                        j as int,
                        i + 1,
                    );
                }
                i = i + 1;
            }
            proof {
                assert forall|o: Origin| #[trigger] is_origin(stacks, o) implies (passed(
                    names@,
                    j as int,
                    i as int,
                    0,
                    o,
                ) <==> passed(names@, j + 1, 0, 0, o)) by {
                    if exists|x: int| 0 <= x < j + 1 && (#[trigger] names@[x])@ == o.0 {
                        let x = choose|x: int| 0 <= x < j + 1 && (#[trigger] names@[x])@ == o.0;
                        if x == j {
                            assert(o.1 < i);
                        } else {
                            assert(0 <= x < j && names@[x]@ == o.0);
                        }
                    }
                    if passed(names@, j as int, i as int, 0, o) {
                        if o.0 == names@[j as int]@ {
                            assert(0 <= j < j + 1 && names@[j as int]@ == o.0);
                        } else {
                            let x = choose|x: int| 0 <= x < j && (#[trigger] names@[x])@ == o.0;
                            assert(0 <= x < j + 1 && names@[x]@ == o.0);
                        }
                    }
                }
                lemma_next_place(
                    out@,
                    stacks,
                    epochs@,
                    origins,
                    names@,
                    j as int,
                    i as int,
                    0,
                    j + 1,
                    0,
                );
            }
        }
        j = j + 1;
    }
    let ghost unsorted = out@;
    sort_in_place(&mut out);
    proof {
        let (from, to) = choose|from: Seq<int>, to: Seq<int>| linked(unsorted, out@, from, to);
        let moved = Seq::new(out@.len(), |q: int| origins[from[q]]);
        assert(comes_from(out@, stacks, epochs@, moved)) by {
            assert forall|q: int| 0 <= q < out@.len() implies is_origin(stacks, #[trigger] moved[q])
                && entry_says(out@[q], stacks, epochs@, moved[q]) by {
                assert(0 <= from[q] < unsorted.len());
                assert(moved[q] == origins[from[q]]);
            }
            assert forall|p: int, q: int|
                #![trigger moved[p], moved[q]]
                0 <= p < moved.len() && 0 <= q < moved.len() && moved[p] == moved[q] implies p
                == q by {
                assert(origins[from[p]] == origins[from[q]]);
                assert(to[from[p]] == p && to[from[q]] == q);
            }
            assert forall|o: Origin| #[trigger] is_origin(stacks, o) implies exists|q: int|
                0 <= q < moved.len() && #[trigger] moved[q] == o by {
                assert(listed(names@, o.0));
                let x = choose|x: int| 0 <= x < names@.len() && (#[trigger] names@[x])@ == o.0;
                assert(passed(names@, names@.len() as int, 0, 0, o));
                let q = choose|q: int| 0 <= q < origins.len() && #[trigger] origins[q] == o;
                assert(0 <= to[q] < moved.len());
                assert(moved[to[q]] == o);
            }
        }
    }
    out
}

/// The ids of the layers ascend.
pub open spec fn ids_ascend<V>(stack: Seq<Layer<V>>) -> bool {
    forall|i: int, j: int|
        #![trigger stack[i], stack[j]]
        0 <= i < j < stack.len() ==> stack[i].id < stack[j].id
}

/// A box holds a point.
pub open spec fn box_holds(coords: Seq<Bound>, ts: Seq<Timestamp>) -> bool {
    &&& ts.len() == coords.len()
    &&& forall|i: int| 0 <= i < ts.len() ==> (#[trigger] coords[i]).holds(ts[i])
}

/// The members of a group stand in the run, in the same order.
proof fn lemma_group_places<V>(
    body: Seq<RunEntry<V>>,
    lens: Seq<char>,
    epoch: u64,
    id: LayerId,
) -> (at: Seq<int>)
    ensures
        at.len() == group_of(body, lens, epoch, id).len(),
        forall|k: int|
            0 <= k < at.len() ==> 0 <= #[trigger] at[k] < body.len() && body[at[k]] == group_of(
                body,
                lens,
                epoch,
                id,
            )[k] && is_live(body[at[k]], lens, epoch) && body[at[k]].layer_id == id,
        forall|k: int, l: int|
            #![trigger at[k], at[l]]
            0 <= k < l < at.len() ==> at[k] < at[l],
        forall|p: int|
            0 <= p < body.len() && is_live(#[trigger] body[p], lens, epoch) && body[p].layer_id
                == id ==> exists|k: int| 0 <= k < at.len() && #[trigger] at[k] == p,
    decreases body.len(),
{
    if body.len() == 0 {
        Seq::empty()
    } else {
        let front = body.drop_last();
        let n = front.len() as int;
        let before = lemma_group_places(front, lens, epoch, id);
        let at = if is_live(body.last(), lens, epoch) && body.last().layer_id == id {
            before.push(n)
        } else {
            before
        };
        let group = group_of(body, lens, epoch, id);
        assert forall|k: int| 0 <= k < at.len() implies 0 <= #[trigger] at[k] < body.len()
            && body[at[k]] == group[k] && is_live(body[at[k]], lens, epoch)
            && body[at[k]].layer_id == id by {
            if k < before.len() {
                assert(at[k] == before[k]);
                assert(front[before[k]] == body[before[k]]);
            }
        }
        assert forall|k: int, l: int| #![trigger at[k], at[l]] 0 <= k < l < at.len() implies at[k]
            < at[l] by {
            assert(at[k] == before[k]);
            assert(0 <= before[k] < front.len());
            if l < before.len() {
                assert(at[l] == before[l]);
            }
        }
        assert forall|p: int|
            0 <= p < body.len() && is_live(#[trigger] body[p], lens, epoch) && body[p].layer_id
                == id implies exists|k: int| 0 <= k < at.len() && #[trigger] at[k] == p by {
            if p < n {
                assert(front[p] == body[p]);
                let k = choose|k: int| 0 <= k < before.len() && #[trigger] before[k] == p;
                assert(at[k] == p);
            } else {
                assert(at[at.len() - 1] == p);
            }
        }
        at
    }
}

/// What a rebuilt layer says of a point is what some live entry of its group says.
pub proof fn lemma_rebuilt_hit<V>(
    body: Seq<RunEntry<V>>,
    lens: Seq<char>,
    epoch: u64,
    layer: Layer<V>,
    ts: Seq<Timestamp>,
)
    requires
        layer_like(layer, group_of(body, lens, epoch, layer.id)),
        makes_layer(group_of(body, lens, epoch, layer.id)),
    ensures
        layer.hit(ts) is Some <==> exists|p: int|
            0 <= p < body.len() && is_live(#[trigger] body[p], lens, epoch) && body[p].layer_id
                == layer.id && box_holds(body[p].coords@, ts),
        forall|p: int|
            0 <= p < body.len() && is_live(#[trigger] body[p], lens, epoch) && body[p].layer_id
                == layer.id && box_holds(body[p].coords@, ts) ==> layer.hit(ts) == Some(
                body[p].value,
            ),
{
    let id = layer.id;
    let group = group_of(body, lens, epoch, id);
    let at = lemma_group_places(body, lens, epoch, id);
    let taus = choose|taus: Seq<Tau<V>>| #[trigger]
        taus_like(taus, group) && rearranged(taus, layer.taus@);
    let (from, to) = choose|from: Seq<int>, to: Seq<int>| linked(taus, layer.taus@, from, to);
    lemma_no_hit(layer.taus@, ts);
    assert forall|p: int|
        0 <= p < body.len() && is_live(#[trigger] body[p], lens, epoch) && body[p].layer_id == id
            && box_holds(body[p].coords@, ts) implies layer.hit(ts) == Some(body[p].value) by {
        let k = choose|k: int| 0 <= k < at.len() && #[trigger] at[k] == p;
        assert(group[k] == body[p]);
        assert(taus[k].coords@ == body[p].coords@);
        assert(0 <= to[k] < layer.taus@.len() && from[to[k]] == k);
        assert(layer.taus@[to[k]] == taus[k]);
        assert(layer.taus@[to[k]].covers(ts));
        lemma_hit_is_only(layer.taus@, ts, to[k]);
    }
    if layer.hit(ts) is Some {
        let m = choose|m: int| 0 <= m < layer.taus@.len() && (#[trigger] layer.taus@[m]).covers(ts);
        let k = from[m];
        assert(layer.taus@[m] == taus[k]);
        assert(taus[k].coords@ == group[k].coords@);
        assert(body[at[k]] == group[k]);
        assert(box_holds(body[at[k]].coords@, ts));
    }
}

/// The newest-wins value comes from the topmost visible layer that covers the point.
pub proof fn lemma_newest_top<V>(
    stack: Seq<Layer<V>>,
    ts: Seq<Timestamp>,
    as_of: Option<i64>,
)
    ensures
        newest(stack, ts, as_of) is None <==> forall|i: int|
            0 <= i < stack.len() ==> !(visible(#[trigger] stack[i], as_of) && stack[i].hit(
                ts,
            ) is Some),
        newest(stack, ts, as_of) is Some ==> exists|i: int|
            0 <= i < stack.len() && visible(#[trigger] stack[i], as_of) && stack[i].hit(ts)
                == newest(stack, ts, as_of) && forall|j: int|
                i < j < stack.len() ==> !(visible(#[trigger] stack[j], as_of) && stack[j].hit(
                    ts,
                ) is Some),
    decreases stack.len(),
{
    if stack.len() > 0 {
        let front = stack.drop_last();
        let n = front.len() as int;
        lemma_newest_top(front, ts, as_of);
        if visible(stack.last(), as_of) && stack.last().hit(ts) is Some {
            assert(stack[n] == stack.last());
        } else {
            if newest(front, ts, as_of) is Some {
                let i = choose|i: int|
                    0 <= i < front.len() && visible(#[trigger] front[i], as_of) && front[i].hit(ts)
                        == newest(front, ts, as_of) && forall|j: int|
                        i < j < front.len() ==> !(visible(#[trigger] front[j], as_of)
                            && front[j].hit(ts) is Some);
                assert(stack[i] == front[i]);
                assert forall|j: int| i < j < stack.len() implies !(visible(
                    #[trigger] stack[j],
                    as_of,
                ) && stack[j].hit(ts) is Some) by {
                    if j < n {
                        assert(front[j] == stack[j]);
                    }
                }
            } else {
                assert forall|i: int| 0 <= i < stack.len() implies !(visible(
                    #[trigger] stack[i],
                    as_of,
                ) && stack[i].hit(ts) is Some) by {
                    if i < n {
                        assert(front[i] == stack[i]);
                    }
                }
            }
        }
    }
}

/// Some layer has the id.
pub open spec fn has_id<V>(stack: Seq<Layer<V>>, id: LayerId) -> bool {
    exists|k: int| 0 <= k < stack.len() && (#[trigger] stack[k]).id == id
}

/// Of every layer of `a` that says something of the point, `b` has one with the same id.
pub open spec fn matched<V>(a: Seq<Layer<V>>, b: Seq<Layer<V>>, ts: Seq<Timestamp>) -> bool {
    forall|i: int|
        0 <= i < a.len() && a[i].hit(ts) is Some ==> #[trigger] has_id(b, a[i].id)
}

/// Two stacks in the order of their ids, in which layers with one id were written at one
/// time and say the same of a point, and in which what only one of them has says nothing,
/// give the same value.
pub proof fn lemma_same_newest<V>(
    a: Seq<Layer<V>>,
    b: Seq<Layer<V>>,
    ts: Seq<Timestamp>,
    as_of: Option<i64>,
)
    requires
        ids_ascend(a),
        ids_ascend(b),
        matched(a, b, ts),
        matched(b, a, ts),
        forall|i: int, k: int|
            #![trigger a[i], b[k]]
            0 <= i < a.len() && 0 <= k < b.len() && a[i].id == b[k].id ==> a[i].hit(ts) == b[k].hit(
                ts,
            ) && a[i].written_at == b[k].written_at,
    ensures
        newest(a, ts, as_of) == newest(b, ts, as_of),
{
    lemma_newest_top(a, ts, as_of);
    lemma_newest_top(b, ts, as_of);
    if newest(a, ts, as_of) is Some {
        let i = choose|i: int|
            0 <= i < a.len() && visible(#[trigger] a[i], as_of) && a[i].hit(ts) == newest(
                a,
                ts,
                as_of,
            ) && forall|j: int|
                i < j < a.len() ==> !(visible(#[trigger] a[j], as_of) && a[j].hit(ts) is Some);
        assert(has_id(b, a[i].id));
        let k = choose|k: int| 0 <= k < b.len() && (#[trigger] b[k]).id == a[i].id;
        assert(b[k].hit(ts) == a[i].hit(ts));
        assert(visible(b[k], as_of));
        let l = choose|l: int|
            0 <= l < b.len() && visible(#[trigger] b[l], as_of) && b[l].hit(ts) == newest(
                b,
                ts,
                as_of,
            ) && forall|j: int|
                l < j < b.len() ==> !(visible(#[trigger] b[j], as_of) && b[j].hit(ts) is Some);
        assert(k <= l);
        if k < l {
            assert(b[k].id < b[l].id);
            assert(has_id(a, b[l].id));
            let m = choose|m: int| 0 <= m < a.len() && (#[trigger] a[m]).id == b[l].id;
            assert(a[m].hit(ts) == b[l].hit(ts) && visible(a[m], as_of));
            if m < i {
                assert(a[m].id < a[i].id);
            }
            assert(m > i);
        }
    } else if newest(b, ts, as_of) is Some {
        let l = choose|l: int|
            0 <= l < b.len() && visible(#[trigger] b[l], as_of) && b[l].hit(ts) == newest(
                b,
                ts,
                as_of,
            ) && forall|j: int|
                l < j < b.len() ==> !(visible(#[trigger] b[j], as_of) && b[j].hit(ts) is Some);
        assert(has_id(a, b[l].id));
        let m = choose|m: int| 0 <= m < a.len() && (#[trigger] a[m]).id == b[l].id;
        assert(a[m].hit(ts) == b[l].hit(ts) && visible(a[m], as_of));
    }
}

/// The entries of a layer make a layer.
proof fn lemma_group_of_layer<V>(
    entries: Seq<RunEntry<V>>,
    stacks: Stacks<V>,
    epochs: Map<Seq<char>, u64>,
    origins: Seq<Origin>,
    lens: Seq<char>,
    a: int,
)
    requires
        comes_from(entries, stacks, epochs, origins),
        stacks.contains_key(lens),
        stack_wf(stacks[lens]),
        ids_ascend(stacks[lens]),
        0 <= a < stacks[lens].len(),
        one_arity(stacks[lens][a].taus@),
    ensures
        ({
            let layer = stacks[lens][a];
            let group = group_of(entries, lens, epoch_of(epochs, lens), layer.id);
            &&& layer.taus@.len() > 0 ==> makes_layer(group)
            &&& group.len() > 0 ==> layer.taus@.len() > 0
            &&& forall|k: int|
                0 <= k < group.len() ==> (#[trigger] group[k]).written_at == layer.written_at
        }),
{
    let stack = stacks[lens];
    let layer = stack[a];
    let epoch = epoch_of(epochs, lens);
    let group = group_of(entries, lens, epoch, layer.id);
    let at = lemma_group_places(entries, lens, epoch, layer.id);
    assert(layer.wf());
    assert forall|k: int| 0 <= k < group.len() implies ({
        let o = #[trigger] origins[at[k]];
        &&& o.0 == lens
        &&& o.1 == a
        &&& is_origin(stacks, o)
        &&& group[k].coords@ == layer.taus@[o.2].coords@
        &&& group[k].written_at == layer.written_at
    }) by {
        let o = origins[at[k]];
        assert(entries[at[k]] == group[k]);
        assert(entry_says(entries[at[k]], stacks, epochs, o));
        assert(stack[o.1].id == stack[a].id);
        if o.1 < a {
            assert(stack[o.1].id < stack[a].id);
        }
        if a < o.1 {
            assert(stack[a].id < stack[o.1].id);
        }
    }
    assert forall|k: int| 0 <= k < group.len() implies (#[trigger] group[k]).written_at
        == layer.written_at by {
        let o = origins[at[k]];
    }
    if group.len() > 0 {
        assert(is_origin(stacks, origins[at[0]]));
    }
    if layer.taus@.len() > 0 {
        let o = (lens, a, 0int);
        assert(is_origin(stacks, o));
        let q = choose|q: int| 0 <= q < origins.len() && #[trigger] origins[q] == o;
        assert(entry_says(entries[q], stacks, epochs, o));
        assert(layer.taus@[0].wf());
        assert(is_live(entries[q], lens, epoch));
        let k = choose|k: int| 0 <= k < at.len() && #[trigger] at[k] == q;
        assert(group.len() > 0);
        assert forall|i: int, j: int|
            #![trigger group[i], group[j]]
            0 <= i < group.len() && 0 <= j < group.len() implies group[i].coords@.len()
            == group[j].coords@.len() by {
            let (x, y) = (origins[at[i]], origins[at[j]]);
            assert(layer.taus@[x.2].coords@.len() == layer.taus@[y.2].coords@.len());
        }
        assert forall|i: int, j: int|
            #![trigger group[i], group[j]]
            0 <= i < group.len() && 0 <= j < group.len() && i != j implies !boxes_meet(
            group[i].coords@,
            group[j].coords@,
        ) by {
            let (x, y) = (origins[at[i]], origins[at[j]]);
            if i < j {
                assert(at[i] < at[j]);
            } else {
                assert(at[j] < at[i]);
            }
            assert(x != y);
            assert(x.2 != y.2);
            assert(!layer.taus@[x.2].meets(&layer.taus@[y.2]));
        }
    }
}

/// Writing a stack to a run and rebuilding it changes no lookup, of now or of any
/// transaction time.
pub proof fn law_run_answers_alike<V>(
    entries: Seq<RunEntry<V>>,
    stacks: Stacks<V>,
    epochs: Map<Seq<char>, u64>,
    lens: Seq<char>,
    back: Seq<Layer<V>>,
    ts: Seq<Timestamp>,
    as_of: Option<i64>,
)
    requires
        flattened(entries, stacks, epochs),
        rebuilt(entries, lens, epoch_of(epochs, lens), back),
        stack_wf(stack_of(stacks, lens)),
        ids_ascend(stack_of(stacks, lens)),
        forall|i: int|
            0 <= i < stack_of(stacks, lens).len() ==> one_arity(
                (#[trigger] stack_of(stacks, lens)[i]).taus@,
            ),
    ensures
        newest(back, ts, as_of) == newest(stack_of(stacks, lens), ts, as_of),
{
    let stack = stack_of(stacks, lens);
    let epoch = epoch_of(epochs, lens);
    let origins = choose|origins: Seq<Origin>| #[trigger]
        comes_from(entries, stacks, epochs, origins);
    assert forall|k: int| 0 <= k < back.len() implies #[trigger] has_id(stack, back[k].id) by {
        let group = group_of(entries, lens, epoch, back[k].id);
        let at = lemma_group_places(entries, lens, epoch, back[k].id);
        assert(group.len() > 0);
        let o = origins[at[0]];
        assert(entry_says(entries[at[0]], stacks, epochs, o));
        assert(stack[o.1].id == back[k].id);
    }
    assert forall|a: int, k: int|
        #![trigger stack[a], back[k]]
        0 <= a < stack.len() && 0 <= k < back.len() && stack[a].id == back[k].id implies stack[a].hit(
        ts,
    ) == back[k].hit(ts) && stack[a].written_at == back[k].written_at by {
        lemma_group_of_layer(entries, stacks, epochs, origins, lens, a);
        let group = group_of(entries, lens, epoch, back[k].id);
        assert(makes_layer(group));
        assert(layer_like(back[k], group));
        assert(group[0].written_at == stack[a].written_at);
        lemma_rebuilt_hit(entries, lens, epoch, back[k], ts);
        lemma_no_hit(stack[a].taus@, ts);
        if stack[a].hit(ts) is Some {
            let b = choose|b: int|
                0 <= b < stack[a].taus@.len() && (#[trigger] stack[a].taus@[b]).covers(ts);
            lemma_hit_is_only(stack[a].taus@, ts, b);
            let o = (lens, a, b);
            assert(is_origin(stacks, o));
            let q = choose|q: int| 0 <= q < origins.len() && #[trigger] origins[q] == o;
            assert(entry_says(entries[q], stacks, epochs, o));
            assert(stack[a].taus@[b].wf());
            assert(is_live(entries[q], lens, epoch));
            assert(box_holds(entries[q].coords@, ts));
        } else if back[k].hit(ts) is Some {
            let p = choose|p: int|
                0 <= p < entries.len() && is_live(#[trigger] entries[p], lens, epoch)
                    && entries[p].layer_id == back[k].id && box_holds(entries[p].coords@, ts);
            let o = origins[p];
            assert(entry_says(entries[p], stacks, epochs, o));
            assert(stack[o.1].id == stack[a].id);
            if o.1 < a {
                assert(stack[o.1].id < stack[a].id);
            }
            if a < o.1 {
                assert(stack[a].id < stack[o.1].id);
            }
            assert(stack[a].taus@[o.2].covers(ts));
        }
    }
    assert forall|a: int| 0 <= a < stack.len() && stack[a].hit(ts) is Some implies #[trigger] has_id(
        back,
        stack[a].id,
    ) by {
        lemma_group_of_layer(entries, stacks, epochs, origins, lens, a);
        lemma_no_hit(stack[a].taus@, ts);
        assert(stack[a].taus@.len() > 0);
        assert(makes_layer(group_of(entries, lens, epoch, stack[a].id)));
    }
    lemma_same_newest(stack, back, ts, as_of);
}

} // verus!
