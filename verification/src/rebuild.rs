//! From run entries back to layers, and from layers to run entries.

use crate::exact::Exact;
use crate::layers::stack_wf;
use crate::model::{all_wf, boxes_apart, one_arity, Bound, Datum, Layer, LayerId, Tau};
use crate::order::rearranged;
use crate::run::RunEntry;
use crate::text::same_text;
use vstd::prelude::*;

verus! {

/// At least one axis, and no empty interval.
pub open spec fn is_box(coords: Seq<Bound>) -> bool {
    &&& coords.len() > 0
    &&& forall|i: int| 0 <= i < coords.len() ==> (#[trigger] coords[i]).lo < coords[i].hi
}

/// The boxes share a point.
pub open spec fn boxes_meet(a: Seq<Bound>, b: Seq<Bound>) -> bool {
    &&& a.len() == b.len()
    &&& forall|i: int| 0 <= i < a.len() ==> (#[trigger] a[i]).lo < b[i].hi && b[i].lo < a[i].hi
}

/// The entry belongs to the lens as it is at an epoch.
pub open spec fn is_live<V>(e: RunEntry<V>, lens: Seq<char>, epoch: u64) -> bool {
    e.lens@ == lens && e.epoch == epoch && is_box(e.coords@)
}

/// The entries of a layer of a lens, in the order in which the run holds them.
pub open spec fn group_of<V>(
    body: Seq<RunEntry<V>>,
    lens: Seq<char>,
    epoch: u64,
    id: LayerId,
) -> Seq<RunEntry<V>>
    decreases body.len(),
{
    if body.len() == 0 {
        Seq::empty()
    } else {
        let front = group_of(body.drop_last(), lens, epoch, id);
        if is_live(body.last(), lens, epoch) && body.last().layer_id == id {
            front.push(body.last())
        } else {
            front
        }
    }
}

/// The entries make a layer: there are some, they have the same number of axes, and no two
/// share a point.
pub open spec fn makes_layer<V>(es: Seq<RunEntry<V>>) -> bool {
    &&& es.len() > 0
    &&& forall|i: int, j: int|
        #![trigger es[i], es[j]]
        0 <= i < es.len() && 0 <= j < es.len() ==> es[i].coords@.len() == es[j].coords@.len()
    &&& forall|i: int, j: int|
        #![trigger es[i], es[j]]
        0 <= i < es.len() && 0 <= j < es.len() && i != j ==> !boxes_meet(
            es[i].coords@,
            es[j].coords@,
        )
}

/// The taus say what the entries say.
pub open spec fn taus_like<V>(taus: Seq<Tau<V>>, es: Seq<RunEntry<V>>) -> bool {
    &&& taus.len() == es.len()
    &&& forall|i: int|
        0 <= i < es.len() ==> (#[trigger] taus[i]).coords@ == es[i].coords@ && taus[i].value
            == es[i].value
}

/// The layer holds what the entries say; the first of them has the write time.
pub open spec fn layer_like<V>(layer: Layer<V>, es: Seq<RunEntry<V>>) -> bool {
    &&& layer.wf()
    &&& es.len() > 0
    &&& layer.id == es[0].layer_id
    &&& layer.written_at == es[0].written_at
    &&& exists|taus: Seq<Tau<V>>| #[trigger]
        taus_like(taus, es) && rearranged(taus, layer.taus@)
}

/// `stack` is the layers of a lens that a run holds, in the order of their ids. Entries
/// that make no layer are left out.
pub open spec fn rebuilt<V>(
    body: Seq<RunEntry<V>>,
    lens: Seq<char>,
    epoch: u64,
    stack: Seq<Layer<V>>,
) -> bool {
    &&& forall|i: int, j: int|
        #![trigger stack[i], stack[j]]
        0 <= i < j < stack.len() ==> stack[i].id < stack[j].id
    &&& forall|i: int|
        0 <= i < stack.len() ==> makes_layer(
            group_of(body, lens, epoch, (#[trigger] stack[i]).id),
        ) && layer_like(stack[i], group_of(body, lens, epoch, stack[i].id))
    &&& forall|id: LayerId| #[trigger]
        makes_layer(group_of(body, lens, epoch, id)) ==> exists|i: int|
            0 <= i < stack.len() && (#[trigger] stack[i]).id == id
}

pub proof fn lemma_rebuilt_wf<V>(
    body: Seq<RunEntry<V>>,
    lens: Seq<char>,
    epoch: u64,
    stack: Seq<Layer<V>>,
)
    requires
        rebuilt(body, lens, epoch, stack),
    ensures
        stack_wf(stack),
{
    assert forall|i: int| 0 <= i < stack.len() implies (#[trigger] stack[i]).wf() by {
        assert(layer_like(stack[i], group_of(body, lens, epoch, stack[i].id)));
    }
}

proof fn lemma_group_members<V>(
    body: Seq<RunEntry<V>>,
    lens: Seq<char>,
    epoch: u64,
    id: LayerId,
)
    ensures
        forall|k: int|
            0 <= k < group_of(body, lens, epoch, id).len() ==> is_live(
                #[trigger] group_of(body, lens, epoch, id)[k],
                lens,
                epoch,
            ) && group_of(body, lens, epoch, id)[k].layer_id == id,
    decreases body.len(),
{
    if body.len() > 0 {
        let front = group_of(body.drop_last(), lens, epoch, id);
        let all = group_of(body, lens, epoch, id);
        lemma_group_members(body.drop_last(), lens, epoch, id);
        assert forall|k: int| 0 <= k < all.len() implies is_live(#[trigger] all[k], lens, epoch)
            && all[k].layer_id == id by {
            if k < front.len() {
                assert(all[k] == front[k]);
            }
        }
    }
}

/// The group of a layer is not empty where some live entry belongs to it.
proof fn lemma_group_nonempty<V>(
    body: Seq<RunEntry<V>>,
    lens: Seq<char>,
    epoch: u64,
    id: LayerId,
)
    ensures
        group_of(body, lens, epoch, id).len() > 0 <==> exists|k: int|
            0 <= k < body.len() && is_live(#[trigger] body[k], lens, epoch) && body[k].layer_id
                == id,
    decreases body.len(),
{
    if body.len() > 0 {
        let front = body.drop_last();
        lemma_group_nonempty(front, lens, epoch, id);
        if group_of(front, lens, epoch, id).len() > 0 {
            let k = choose|k: int|
                0 <= k < front.len() && is_live(#[trigger] front[k], lens, epoch)
                    && front[k].layer_id == id;
            assert(body[k] == front[k]);
        }
        if exists|k: int|
            0 <= k < body.len() && is_live(#[trigger] body[k], lens, epoch) && body[k].layer_id
                == id {
            let k = choose|k: int|
                0 <= k < body.len() && is_live(#[trigger] body[k], lens, epoch)
                    && body[k].layer_id == id;
            if k < body.len() - 1 {
                assert(front[k] == body[k]);
            }
        }
    }
}

fn box_of(coords: &Vec<Bound>) -> (r: bool)
    ensures
        r == is_box(coords@),
{
    if coords.len() == 0 {
        return false;
    }
    let mut i: usize = 0;
    while i < coords.len()
        invariant
            i <= coords@.len(),
            forall|k: int| 0 <= k < i ==> (#[trigger] coords@[k]).lo < coords@[k].hi,
        decreases coords@.len() - i,
    {
        if coords[i].lo >= coords[i].hi {
            return false;
        }
        i = i + 1;
    }
    true
}

fn live<V>(e: &RunEntry<V>, lens: &str, epoch: u64) -> (r: bool)
    ensures
        r == is_live(*e, lens@, epoch),
{
    same_text(e.lens.as_str(), lens) && e.epoch == epoch && box_of(&e.coords)
}

/// The least id above a limit of a layer that has a live entry.
fn next_id<V>(body: &Vec<RunEntry<V>>, lens: &str, epoch: u64, above: Option<LayerId>) -> (r:
    Option<LayerId>)
    ensures
        match r {
            Some(id) => {
                &&& above matches Some(limit) ==> id > limit
                &&& group_of(body@, lens@, epoch, id).len() > 0
                &&& forall|other: LayerId|
                    (above matches Some(limit) ==> other > limit) && other < id
                        ==> #[trigger] group_of(body@, lens@, epoch, other).len() == 0
            },
            None => forall|other: LayerId|
                (above matches Some(limit) ==> other > limit) ==> #[trigger] group_of(
                    body@,
                    lens@,
                    epoch,
                    other,
                ).len() == 0,
        },
{
    let mut best: Option<LayerId> = None;
    let mut i: usize = 0;
    while i < body.len()
        invariant
            i <= body@.len(),
            best matches Some(id) ==> (above matches Some(limit) ==> id > limit) && exists|k: int|
                0 <= k < i && is_live(#[trigger] body@[k], lens@, epoch) && body@[k].layer_id == id,
            forall|k: int|
                0 <= k < i && is_live(#[trigger] body@[k], lens@, epoch) && (above matches Some(
                    limit,
                ) ==> body@[k].layer_id > limit) ==> (best matches Some(id) && id
                    <= body@[k].layer_id),
        decreases body@.len() - i,
    {
        let e = &body[i];
        let open: bool = match above {
            Some(limit) => e.layer_id > limit,
            None => true,
        };
        if open && live(e, lens, epoch) {
            let better: bool = match best {
                Some(id) => e.layer_id < id,
                None => true,
            };
            if better {
                best = Some(e.layer_id);
            }
        }
        i = i + 1;
    }
    proof {
        assert forall|other: LayerId|
            (above matches Some(limit) ==> other > limit) && (best matches Some(id) ==> other
                < id) implies #[trigger] group_of(body@, lens@, epoch, other).len() == 0 by {
            lemma_group_nonempty(body@, lens@, epoch, other);
            if group_of(body@, lens@, epoch, other).len() > 0 {
                let k = choose|k: int|
                    0 <= k < body@.len() && is_live(#[trigger] body@[k], lens@, epoch)
                        && body@[k].layer_id == other;
                assert(best is Some);
            }
        }
        if best is Some {
            lemma_group_nonempty(body@, lens@, epoch, best->Some_0);
        }
    }
    best
}

pub fn copy_coords(coords: &Vec<Bound>) -> (r: Vec<Bound>)
    ensures
        r@ == coords@,
{
    let mut out: Vec<Bound> = Vec::new();
    let mut i: usize = 0;
    while i < coords.len()
        invariant
            i <= coords@.len(),
            out@ =~= coords@.take(i as int),
        decreases coords@.len() - i,
    {
        out.push(coords[i]);
        i = i + 1;
    }
    assert(out@ =~= coords@);
    out
}

/// The taus of a layer and its write time.
fn gather_group<V: Datum>(body: &Vec<RunEntry<V>>, lens: &str, epoch: u64, id: LayerId) -> (r: (
    Vec<Tau<V>>,
    i64,
))
    ensures
        taus_like(r.0@, group_of(body@, lens@, epoch, id)),
        all_wf(r.0@),
        r.0@.len() > 0 ==> r.1 == group_of(body@, lens@, epoch, id)[0].written_at,
{
    let mut taus: Vec<Tau<V>> = Vec::new();
    let mut written_at: i64 = 0;
    let mut i: usize = 0;
    assert(body@.take(0) =~= Seq::empty());
    while i < body.len()
        invariant
            i <= body@.len(),
            taus_like(taus@, group_of(body@.take(i as int), lens@, epoch, id)),
            all_wf(taus@),
            taus@.len() > 0 ==> written_at == group_of(
                body@.take(i as int),
                lens@,
                epoch,
                id,
            )[0].written_at,
        decreases body@.len() - i,
    {
        let e = &body[i];
        proof {
            assert(body@.take(i + 1).drop_last() =~= body@.take(i as int));
            assert(body@.take(i + 1).last() == *e);
        }
        if e.layer_id == id && live(e, lens, epoch) {
            if taus.len() == 0 {
                written_at = e.written_at;
            }
            taus.push(Tau { coords: copy_coords(&e.coords), value: e.value.dup() });
        }
        i = i + 1;
    }
    assert(body@.take(body@.len() as int) =~= body@);
    (taus, written_at)
}

proof fn lemma_taus_like_valid<V>(taus: Seq<Tau<V>>, es: Seq<RunEntry<V>>)
    requires
        taus_like(taus, es),
        es.len() > 0,
    ensures
        one_arity(taus) && boxes_apart(taus) <==> makes_layer(es),
{
    if one_arity(taus) && boxes_apart(taus) {
        assert forall|i: int, j: int|
            #![trigger es[i], es[j]]
            0 <= i < es.len() && 0 <= j < es.len() implies es[i].coords@.len()
            == es[j].coords@.len() by {
            assert(taus[i].coords@.len() == taus[j].coords@.len());
        }
        assert forall|i: int, j: int|
            #![trigger es[i], es[j]]
            0 <= i < es.len() && 0 <= j < es.len() && i != j implies !boxes_meet(
            es[i].coords@,
            es[j].coords@,
        ) by {
            assert(!taus[i].meets(&taus[j]));
        }
    }
    if makes_layer(es) {
        assert forall|i: int, j: int|
            #![trigger taus[i], taus[j]]
            0 <= i < taus.len() && 0 <= j < taus.len() implies taus[i].coords@.len()
            == taus[j].coords@.len() by {
            assert(es[i].coords@.len() == es[j].coords@.len());
        }
        assert forall|i: int, j: int|
            #![trigger taus[i], taus[j]]
            0 <= i < taus.len() && 0 <= j < taus.len() && i != j implies !taus[i].meets(
            &taus[j],
        ) by {
            assert(!boxes_meet(es[i].coords@, es[j].coords@));
        }
    }
}

/// The layers of a lens that a run holds.
pub fn rebuild<V: Datum>(body: &Vec<RunEntry<V>>, lens: &str, epoch: u64) -> (r: Vec<Layer<V>>)
    ensures
        rebuilt(body@, lens@, epoch, r@),
        stack_wf(r@),
{
    let mut out: Vec<Layer<V>> = Vec::new();
    let mut above: Option<LayerId> = None;
    let mut more: bool = true;
    let ghost mut left: int = u64::MAX + 1;
    while more
        invariant
            0 <= left,
            above is None ==> left == u64::MAX + 1,
            above matches Some(limit) ==> left == u64::MAX - limit,
            above is None ==> out@.len() == 0,
            forall|i: int|
                0 <= i < out@.len() ==> (above matches Some(limit) && (#[trigger] out@[i]).id
                    <= limit),
            forall|i: int, j: int|
                #![trigger out@[i], out@[j]]
                0 <= i < j < out@.len() ==> out@[i].id < out@[j].id,
            forall|i: int|
                0 <= i < out@.len() ==> makes_layer(
                    group_of(body@, lens@, epoch, (#[trigger] out@[i]).id),
                ) && layer_like(out@[i], group_of(body@, lens@, epoch, out@[i].id)),
            forall|id: LayerId|
                (if more {
                    above matches Some(limit) && id <= limit
                } else {
                    true
                }) && #[trigger] makes_layer(group_of(body@, lens@, epoch, id)) ==> exists|i: int|
                    0 <= i < out@.len() && (#[trigger] out@[i]).id == id,
        decreases left, if more { 1int } else { 0int },
    {
        match next_id(body, lens, epoch, above) {
            None => {
                more = false;
                proof {
                    assert forall|id: LayerId| #[trigger]
                        makes_layer(group_of(body@, lens@, epoch, id)) implies exists|i: int|
                        0 <= i < out@.len() && (#[trigger] out@[i]).id == id by {
                        assert(group_of(body@, lens@, epoch, id).len() > 0);
                    }
                }
            },
            Some(id) => {
                let ghost group = group_of(body@, lens@, epoch, id);
                let ghost before = out@;
                let (taus, written_at) = gather_group(body, lens, epoch, id);
                let ghost given = taus@;
                proof {
                    lemma_taus_like_valid(given, group);
                    lemma_group_members(body@, lens@, epoch, id);
                }
                if let Some(layer) = Layer::try_new_nd_at(id, taus, written_at) {
                    proof {
                        assert(taus_like(given, group) && rearranged(given, layer.taus@));
                        assert(layer_like(layer, group));
                    }
                    out.push(layer);
                }
                proof {
                    assert forall|other: LayerId| other <= id && #[trigger] makes_layer(
                        group_of(body@, lens@, epoch, other),
                    ) implies exists|i: int|
                        0 <= i < out@.len() && (#[trigger] out@[i]).id == other by {
                        assert(group_of(body@, lens@, epoch, other).len() > 0);
                        if other == id {
                            assert(out@[out@.len() - 1].id == id);
                        } else {
                            assert(above matches Some(limit) && other <= limit);
                            let i = choose|i: int|
                                0 <= i < before.len() && (#[trigger] before[i]).id == other;
                            assert(out@[i].id == other);
                        }
                    }
                    left = u64::MAX - id;
                }
                above = Some(id);
            },
        }
    }
    proof {
        lemma_rebuilt_wf(body@, lens@, epoch, out@);
    }
    out
}

} // verus!
