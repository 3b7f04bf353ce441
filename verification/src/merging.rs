//! What merging keeps: taking runs back into memory, or merging them into one, changes no
//! answer where layers were written in order.

use crate::codec::Codec;
use crate::durability::{
    epochs_bounded, lemma_runs_answer_newest, lemma_stacks_ruled_out, quiet_run, run_sound,
};
use crate::flatten::{ids_ascend, is_origin, law_run_answers_alike, lemma_newest_top, stacks_wf};
use crate::layers::{
    agree, compacted, generation_start, law_compaction_preserves_lookups,
    lemma_generation_start_range, lemma_newest_split, merged, newest, stack_empty, stack_one_axis,
    stack_wf,
};
use crate::memory::{stack_of, Stacks};
use crate::model::{one_arity, Datum, Layer, Tau, Timestamp};
use crate::order::{ascending, linked, rearranged, Rank};
use crate::rebuild::{group_of, layer_like, makes_layer, rebuilt, taus_like};
use crate::run::{entry_views, run_parts, ruled_out, tells, FooterV, RunEntry};
use crate::sstable::{
    chosen, collected, consolidation, gathered, having, in_some_run, lemma_flat_sound, lens_merged,
    merged_lens, merged_stacks, pending, runs_answer, store_answers, FileAction, RunV, StoreV,
};
use vstd::prelude::*;

verus! {

/// The layers were written in the order in which they stand: their ids ascend, and their
/// write times do not go back.
pub open spec fn in_order<V>(stack: Seq<Layer<V>>) -> bool {
    &&& ids_ascend(stack)
    &&& forall|i: int, j: int|
        #![trigger stack[i], stack[j]]
        0 <= i < j < stack.len() ==> stack[i].written_at <= stack[j].written_at
}

/// A map of positions that keeps their order keeps each of them.
proof fn lemma_monotone_keeps(to: Seq<int>, i: int)
    requires
        0 <= i < to.len(),
        forall|k: int| 0 <= k < to.len() ==> 0 <= #[trigger] to[k] < to.len(),
        forall|k: int, l: int| #![trigger to[k], to[l]] 0 <= k < l < to.len() ==> to[k] < to[l],
    ensures
        to[i] == i,
{
    lemma_monotone_below(to, i);
    lemma_monotone_above(to, i);
}

proof fn lemma_monotone_below(to: Seq<int>, i: int)
    requires
        0 <= i < to.len(),
        forall|k: int| 0 <= k < to.len() ==> 0 <= #[trigger] to[k] < to.len(),
        forall|k: int, l: int| #![trigger to[k], to[l]] 0 <= k < l < to.len() ==> to[k] < to[l],
    ensures
        to[i] >= i,
    decreases i,
{
    if i > 0 {
        lemma_monotone_below(to, i - 1);
        assert(to[i - 1] < to[i]);
    }
}

proof fn lemma_monotone_above(to: Seq<int>, i: int)
    requires
        0 <= i < to.len(),
        forall|k: int| 0 <= k < to.len() ==> 0 <= #[trigger] to[k] < to.len(),
        forall|k: int, l: int| #![trigger to[k], to[l]] 0 <= k < l < to.len() ==> to[k] < to[l],
    ensures
        to[i] <= i,
    decreases to.len() - i,
{
    if i < to.len() - 1 {
        lemma_monotone_above(to, i + 1);
        assert(to[i] < to[i + 1]);
    }
}

/// Sorting layers that are in order changes nothing.
proof fn lemma_sorted_already<V>(stack: Seq<Layer<V>>, sorted: Seq<Layer<V>>)
    requires
        in_order(stack),
        rearranged(stack, sorted),
        ascending(sorted),
    ensures
        sorted == stack,
{
    let (from, to) = choose|from: Seq<int>, to: Seq<int>| linked(stack, sorted, from, to);
    assert forall|k: int, l: int| #![trigger to[k], to[l]] 0 <= k < l < to.len() implies to[k]
        < to[l] by {
        assert(from[to[k]] == k && from[to[l]] == l);
        assert(sorted[to[k]] == stack[k] && sorted[to[l]] == stack[l]);
        assert(stack[k].id < stack[l].id);
        if to[l] < to[k] {
            assert(sorted[to[l]].at_most(&sorted[to[k]]));
        }
    }
    assert forall|i: int| 0 <= i < stack.len() implies sorted[i] == stack[i] by {
        lemma_monotone_keeps(to, i);
        assert(from[to[i]] == i);
    }
    assert(sorted =~= stack);
}

/// Compaction keeps layers well formed, each of one number of axes, and their ids in order.
proof fn lemma_compacted_keeps<V: Datum>(before: Seq<Layer<V>>, after: Seq<Layer<V>>)
    requires
        compacted(before, after),
        stack_wf(before),
        ids_ascend(before),
        forall|i: int| 0 <= i < before.len() ==> one_arity((#[trigger] before[i]).taus@),
    ensures
        stack_wf(after),
        ids_ascend(after),
        forall|i: int| 0 <= i < after.len() ==> one_arity((#[trigger] after[i]).taus@),
        forall|i: int| 0 <= i < after.len() ==> before.len() > 0 && (#[trigger] after[i]).id <= before.last().id,
    decreases before.len(),
{
    if before.len() > 0 {
        lemma_generation_start_range(before);
        let k = generation_start(before);
        let group = before.skip(k);
        let head = before.take(k);
        assert(forall|i: int| 0 <= i < head.len() ==> head[i] == before[i]);
        assert(forall|i: int| 0 <= i < group.len() ==> group[i] == before[k + i]);
        if !stack_one_axis(group) {
            let m = after.len() - group.len();
            let rest = after.take(m);
            lemma_compacted_keeps(head, rest);
            assert forall|i: int| 0 <= i < after.len() implies (#[trigger] after[i]) == if i < m {
                rest[i]
            } else {
                before[k + i - m]
            } by {
                if i >= m {
                    assert(after.skip(m)[i - m] == after[i]);
                }
            }
        } else if stack_empty(group) {
            lemma_compacted_keeps(head, after);
        } else {
            let rest = after.drop_last();
            lemma_compacted_keeps(head, rest);
            assert forall|i: int| 0 <= i < after.len() implies (#[trigger] after[i]) == if i
                < rest.len() {
                rest[i]
            } else {
                after.last()
            } by {}
            assert(merged(group, after.last()));
            assert(group.last() == before.last());
        }
    }
}

/// Compaction keeps layers well formed.
proof fn lemma_compacted_wf<V: Datum>(before: Seq<Layer<V>>, after: Seq<Layer<V>>)
    requires
        compacted(before, after),
        stack_wf(before),
    ensures
        stack_wf(after),
    decreases before.len(),
{
    if before.len() > 0 {
        lemma_generation_start_range(before);
        let k = generation_start(before);
        let group = before.skip(k);
        let head = before.take(k);
        assert(stack_wf(head));
        assert(forall|i: int| 0 <= i < group.len() ==> group[i] == before[k + i]);
        if !stack_one_axis(group) {
            let m = after.len() - group.len();
            lemma_compacted_wf(head, after.take(m));
            assert forall|i: int| 0 <= i < after.len() implies (#[trigger] after[i]).wf() by {
                if i < m {
                    assert(after.take(m)[i] == after[i]);
                } else {
                    assert(after.skip(m)[i - m] == after[i]);
                }
            }
        } else if stack_empty(group) {
            lemma_compacted_wf(head, after);
        } else {
            lemma_compacted_wf(head, after.drop_last());
            assert forall|i: int| 0 <= i < after.len() implies (#[trigger] after[i]).wf() by {
                if i < after.len() - 1 {
                    assert(after.drop_last()[i] == after[i]);
                }
            }
        }
    }
}

/// What is merged from runs is well formed.
proof fn lemma_merged_wf<V: Datum>(v: StoreV<V>, stacks: Stacks<V>)
    requires
        merged_stacks(v, stacks),
    ensures
        stacks_wf(stacks),
{
    assert forall|lens: Seq<char>| #[trigger] stacks.contains_key(lens) implies stack_wf(
        stacks[lens],
    ) by {
        assert(lens_merged(v, lens, stacks[lens]));
        let (picks, below, sorted) = choose|
            picks: Seq<bool>,
            below: Seq<Layer<V>>,
            sorted: Seq<Layer<V>>,
        | #[trigger]
            merged_lens(v, lens, picks, below, sorted, stacks[lens]);
        lemma_gathered_arity(v.runs, picks, lens, v.epoch(lens), below);
        let (from, to) = choose|from: Seq<int>, to: Seq<int>| linked(below, sorted, from, to);
        assert forall|i: int| 0 <= i < sorted.len() implies (#[trigger] sorted[i]).wf() by {
            assert(sorted[i] == below[from[i]]);
        }
        lemma_compacted_wf(sorted, stacks[lens]);
    }
}

/// What is rebuilt from a run has layers of one number of axes each.
proof fn lemma_rebuilt_arity<V>(
    body: Seq<RunEntry<V>>,
    lens: Seq<char>,
    epoch: u64,
    stack: Seq<Layer<V>>,
)
    requires
        rebuilt(body, lens, epoch, stack),
    ensures
        stack_wf(stack),
        forall|i: int| 0 <= i < stack.len() ==> one_arity((#[trigger] stack[i]).taus@),
{
    assert forall|i: int| 0 <= i < stack.len() implies (#[trigger] stack[i]).wf() && one_arity(
        stack[i].taus@,
    ) by {
        let es = group_of(body, lens, epoch, stack[i].id);
        assert(layer_like(stack[i], es));
        assert(makes_layer(es));
        let taus = choose|taus: Seq<Tau<V>>| #[trigger]
            taus_like(taus, es) && rearranged(taus, stack[i].taus@);
        let (from, to) = choose|from: Seq<int>, to: Seq<int>|
            linked(taus, stack[i].taus@, from, to);
        let out = stack[i].taus@;
        assert forall|p: int, q: int|
            #![trigger out[p], out[q]]
            0 <= p < out.len() && 0 <= q < out.len() implies out[p].coords@.len()
            == out[q].coords@.len() by {
            assert(out[p] == taus[from[p]] && out[q] == taus[from[q]]);
            assert(es[from[p]].coords@.len() == es[from[q]].coords@.len());
        }
    }
}

proof fn lemma_gathered_arity<V>(
    runs: Seq<RunV<V>>,
    picks: Seq<bool>,
    lens: Seq<char>,
    epoch: u64,
    below: Seq<Layer<V>>,
)
    requires
        gathered(runs, picks, lens, epoch, below),
    ensures
        stack_wf(below),
        forall|i: int| 0 <= i < below.len() ==> one_arity((#[trigger] below[i]).taus@),
    decreases runs.len(),
{
    if runs.len() > 0 {
        let front = runs.drop_last();
        if !picks[runs.len() - 1] || runs.last().body is Err {
            lemma_gathered_arity(front, picks, lens, epoch, below);
        } else {
            let body = runs.last().body->Ok_0;
            let top = choose|stack: Seq<Layer<V>>| #[trigger]
                rebuilt(body, lens, epoch, stack) && stack.len() <= below.len() && below.skip(
                    below.len() - stack.len(),
                ) == stack && gathered(
                    front,
                    picks,
                    lens,
                    epoch,
                    below.take(below.len() - stack.len()),
                );
            let m = below.len() - top.len();
            let rest = below.take(m);
            lemma_gathered_arity(front, picks, lens, epoch, rest);
            lemma_rebuilt_arity(body, lens, epoch, top);
            assert forall|i: int| 0 <= i < below.len() implies (#[trigger] below[i]).wf()
                && one_arity(below[i].taus@) by {
                if i < m {
                    assert(rest[i] == below[i]);
                } else {
                    assert(below.skip(m)[i - m] == below[i]);
                }
            }
        }
    }
}

/// Runs that were taken back into memory for a lens say nothing of it any more.
pub open spec fn absorbed_quiet<V>(v: StoreV<V>, lens: Seq<char>) -> bool {
    forall|i: int|
        0 <= i < v.runs.len() && v.has_absorbed(lens, (#[trigger] v.runs[i]).id) ==> quiet_run(
            v.runs[i],
            lens,
            v.epoch(lens),
        )
}

/// Taking what runs hold of a lens back into memory changes no answer about the lens,
/// where its layers were written in order.
pub proof fn law_consolidation_changes_no_answer<V: Datum + View>(
    v: StoreV<V>,
    lens: Seq<char>,
    picks: Seq<bool>,
    below: Seq<Layer<V>>,
    sorted: Seq<Layer<V>>,
    after: StoreV<V>,
    ts: Seq<Timestamp>,
    as_of: Option<i64>,
    r: Option<V>,
    s: Option<V>,
)
    requires
        v.wf(),
        epochs_bounded(v),
        v.epoch(lens) < u64::MAX,
        absorbed_quiet(v, lens),
        forall|i: int| 0 <= i < v.runs.len() ==> run_sound(#[trigger] v.runs[i]),
        consolidation(v, lens, picks, below, sorted, after),
        in_order(below + stack_of(v.memtable, lens)),
        store_answers(v, lens, ts, as_of, r),
        store_answers(after, lens, ts, as_of, s),
    ensures
        agree(s, r),
{
    let mem = stack_of(v.memtable, lens);
    let out = stack_of(after.memtable, lens);
    lemma_sorted_already(below + mem, sorted);
    law_compaction_preserves_lookups(below + mem, out, ts, as_of);
    lemma_newest_split(below, mem, ts, as_of);
    if ts.len() > 0 {
        assert forall|i: int| 0 <= i < v.runs.len() implies (#[trigger] picks[i]) || quiet_run(
            v.runs[i],
            lens,
            v.epoch(lens),
        ) by {
            assert(picks[i] == pending(v, lens)(v.runs[i]));
        }
        if newest(mem, ts, as_of) is None {
            lemma_runs_answer_newest(v.runs, picks, lens, v.epoch(lens), ts, as_of, r, below);
        }
        assert(r == newest(below + mem, ts, as_of));
        if newest(out, ts, as_of) is None {
            assert forall|i: int| 0 <= i < v.runs.len() implies quiet_run(
                #[trigger] v.runs[i],
                lens,
                after.epoch(lens),
            ) by {
                assert(run_sound(v.runs[i]));
                let body = v.runs[i].body->Ok_0;
                if crate::sstable::some_pick(picks) {
                    assert forall|k: int|
                        #![trigger body[k]]
                        0 <= k < body.len() && body[k].lens@ == lens implies body[k].epoch
                        != after.epoch(lens) by {
                        assert(v.runs[i].body->Ok_0[k].epoch <= v.epoch(lens));
                    }
                } else {
                    assert(!picks[i]);
                    assert(picks[i] || quiet_run(v.runs[i], lens, v.epoch(lens)));
                }
            }
            lemma_quiet_runs(v.runs, lens, after.epoch(lens), ts, as_of, s);
        }
    }
}

/// Runs that are all quiet say nothing.
proof fn lemma_quiet_runs<V: View>(
    runs: Seq<RunV<V>>,
    lens: Seq<char>,
    epoch: u64,
    ts: Seq<Timestamp>,
    as_of: Option<i64>,
    r: Option<V>,
)
    requires
        ts.len() > 0,
        runs_answer(runs, lens, epoch, ts, as_of, r),
        forall|i: int| 0 <= i < runs.len() ==> quiet_run(#[trigger] runs[i], lens, epoch),
        forall|i: int| 0 <= i < runs.len() ==> run_sound(#[trigger] runs[i]),
    ensures
        r is None,
{
    let none = Seq::new(runs.len(), |i: int| false);
    lemma_nothing_gathered(runs, none, lens, epoch);
    assert forall|i: int| 0 <= i < runs.len() implies (#[trigger] none[i]) || quiet_run(
        runs[i],
        lens,
        epoch,
    ) by {}
    lemma_runs_answer_newest(runs, none, lens, epoch, ts, as_of, r, Seq::empty());
}

proof fn lemma_nothing_gathered<V>(
    runs: Seq<RunV<V>>,
    picks: Seq<bool>,
    lens: Seq<char>,
    epoch: u64,
)
    requires
        picks.len() >= runs.len(),
        forall|i: int| 0 <= i < picks.len() ==> !#[trigger] picks[i],
    ensures
        gathered(runs, picks, lens, epoch, Seq::empty()),
    decreases runs.len(),
{
    if runs.len() > 0 {
        lemma_nothing_gathered(runs.drop_last(), picks, lens, epoch);
    }
}

/// The layers of a lens in the runs, oldest run first, were written in order.
pub open spec fn runs_in_order<V>(v: StoreV<V>, lens: Seq<char>) -> bool {
    forall|picks: Seq<bool>, below: Seq<Layer<V>>|
        chosen(v.runs, picks, having(lens)) && #[trigger] gathered(
            v.runs,
            picks,
            lens,
            v.epoch(lens),
            below,
        ) ==> in_order(below)
}

/// Merging all runs into one changes no answer about a lens whose layers were written in
/// order.
pub proof fn law_merging_changes_no_answer<V: Codec>(
    v: StoreV<V>,
    key: Option<Seq<u8>>,
    level: i32,
    stacks: Stacks<V>,
    entries: Seq<RunEntry<V>>,
    footer: FooterV,
    acts: Seq<FileAction>,
    after: StoreV<V>,
    lens: Seq<char>,
    ts: Seq<Timestamp>,
    as_of: Option<i64>,
    r: Option<V>,
    s: Option<V>,
)
    requires
        v.wf(),
        forall|i: int| 0 <= i < v.runs.len() ==> run_sound(#[trigger] v.runs[i]),
        collected::<V>(v, key, level, stacks, entries, footer, acts, after),
        runs_in_order(v, lens),
        store_answers(v, lens, ts, as_of, r),
        store_answers(after, lens, ts, as_of, s),
    ensures
        agree(s, r),
{
    let mem = stack_of(v.memtable, lens);
    let epoch = v.epoch(lens);
    let whole = stack_of(stacks, lens);
    if ts.len() > 0 && newest(mem, ts, as_of) is None {
        if stacks.contains_key(lens) {
            assert(lens_merged(v, lens, stacks[lens]));
            let (picks, below, sorted) = choose|
                picks: Seq<bool>,
                below: Seq<Layer<V>>,
                sorted: Seq<Layer<V>>,
            | #[trigger]
                merged_lens(v, lens, picks, below, sorted, stacks[lens]);
            assert(in_order(below));
            lemma_sorted_already(below, sorted);
            lemma_gathered_arity(v.runs, picks, lens, epoch, below);
            lemma_compacted_keeps(below, whole);
            law_compaction_preserves_lookups(below, whole, ts, as_of);
            assert forall|i: int| 0 <= i < v.runs.len() implies (#[trigger] picks[i]) || quiet_run(
                v.runs[i],
                lens,
                epoch,
            ) by {
                assert(picks[i] == having::<V>(lens)(v.runs[i]));
            }
            lemma_runs_answer_newest(v.runs, picks, lens, epoch, ts, as_of, r, below);
        } else {
            assert(!in_some_run(v.runs, lens));
            assert forall|i: int| 0 <= i < v.runs.len() implies quiet_run(
                #[trigger] v.runs[i],
                lens,
                epoch,
            ) by {
                assert(!v.runs[i].footer.contains_key(lens));
            }
            lemma_quiet_runs(v.runs, lens, epoch, ts, as_of, r);
            assert(whole.len() == 0);
        }
        assert(agree(newest(whole, ts, as_of), r));
        lemma_merged_run_answers(
            v,
            key,
            level,
            stacks,
            entries,
            footer,
            acts,
            after,
            lens,
            ts,
            as_of,
            s,
        );
    }
}

/// The merged run says what the merged stack says.
proof fn lemma_merged_run_answers<V: Codec>(
    v: StoreV<V>,
    key: Option<Seq<u8>>,
    level: i32,
    stacks: Stacks<V>,
    entries: Seq<RunEntry<V>>,
    footer: FooterV,
    acts: Seq<FileAction>,
    after: StoreV<V>,
    lens: Seq<char>,
    ts: Seq<Timestamp>,
    as_of: Option<i64>,
    s: Option<V>,
)
    requires
        collected::<V>(v, key, level, stacks, entries, footer, acts, after),
        stack_wf(stack_of(stacks, lens)),
        ids_ascend(stack_of(stacks, lens)),
        forall|i: int|
            0 <= i < stack_of(stacks, lens).len() ==> one_arity(
                (#[trigger] stack_of(stacks, lens)[i]).taus@,
            ),
        ts.len() > 0,
        runs_answer(after.runs, lens, v.epoch(lens), ts, as_of, s),
    ensures
        s == newest(stack_of(stacks, lens), ts, as_of),
{
    let whole = stack_of(stacks, lens);
    let epoch = v.epoch(lens);
    lemma_newest_top(whole, ts, as_of);
    if entries.len() == 0 {
        assert forall|i: int| 0 <= i < whole.len() implies (#[trigger] whole[i]).hit(ts) is None by {
            crate::model::lemma_no_hit(whole[i].taus@, ts);
            if whole[i].taus@.len() > 0 {
                let o: crate::flatten::Origin = (lens, i, 0);
                let origins = choose|origins: Seq<crate::flatten::Origin>| #[trigger]
                    crate::flatten::comes_from(entries, stacks, v.epochs, origins);
                assert(is_origin(stacks, o));
            }
        }
    } else {
        lemma_merged_wf(v, stacks);
        lemma_flat_sound(entries, stacks, v.epochs);
        assert(tells(footer, entry_views(entries))) by {
            let bytes = acts[0]->bytes@;
            let (names, body, foot) = choose|names: Seq<String>, body: Seq<u8>, foot: Seq<u8>|
                #[trigger]
                run_parts::<V>(bytes, entry_views(entries), key, level, footer, names, body, foot);
        }
        let none = Seq::<RunV<V>>::empty();
        assert(after.runs.drop_last() =~= none);
        if ruled_out(footer, lens, ts[0]) {
            lemma_stacks_ruled_out(stacks, v.epochs, entries, footer, lens, ts, as_of);
        } else {
            let stack = choose|stack: Seq<Layer<V>>| #[trigger]
                rebuilt(entries, lens, epoch, stack) && if newest(stack, ts, as_of) is Some {
                    s == newest(stack, ts, as_of)
                } else {
                    runs_answer(none, lens, epoch, ts, as_of, s)
                };
            law_run_answers_alike(entries, stacks, v.epochs, lens, stack, ts, as_of);
        }
    }
}

} // verus!
