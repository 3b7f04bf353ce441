//! What holds of stores of runs across flushes, drops and reopening.

use crate::codec::Codec;
use crate::flatten::{
    box_holds, comes_from, entry_says, flattened, ids_ascend, law_run_answers_alike,
    lemma_newest_top, lemma_rebuilt_hit, lemma_same_newest, has_id, Origin,
};
use crate::layers::{lemma_newest_split, newest, stack_wf};
use crate::manifest::{texts_of, ManifestV};
use crate::memory::{stack_of, Stacks};
use crate::model::{one_arity, Layer, Timestamp};
use crate::names::{listed, lists_keys};
use crate::rebuild::{group_of, is_live, makes_layer, rebuilt};
use crate::run::{
    entries_sound, entry_views, law_footer_never_misleads, ruled_out, run_parts, tells, FooterV,
    RunEntry,
};
use crate::sstable::{
    as_pairs, combined, dropped, every_run, flushed, gathered, manifest_says, opened, pairs_list,
    run_read, runs_answer, store_answers, FileAction, RunV, StoreV, chosen,
};
use vstd::prelude::*;

verus! {

/// Two rebuildings of what a run holds of a lens answer alike.
proof fn lemma_rebuilt_alike<V>(
    body: Seq<RunEntry<V>>,
    lens: Seq<char>,
    epoch: u64,
    a: Seq<Layer<V>>,
    b: Seq<Layer<V>>,
    ts: Seq<Timestamp>,
    as_of: Option<i64>,
)
    requires
        rebuilt(body, lens, epoch, a),
        rebuilt(body, lens, epoch, b),
    ensures
        newest(a, ts, as_of) == newest(b, ts, as_of),
{
    assert forall|i: int, k: int|
        #![trigger a[i], b[k]]
        0 <= i < a.len() && 0 <= k < b.len() && a[i].id == b[k].id implies a[i].hit(ts) == b[k].hit(
        ts,
    ) && a[i].written_at == b[k].written_at by {
        lemma_rebuilt_hit(body, lens, epoch, a[i], ts);
        lemma_rebuilt_hit(body, lens, epoch, b[k], ts);
        if a[i].hit(ts) is Some {
            let p = choose|p: int|
                0 <= p < body.len() && is_live(#[trigger] body[p], lens, epoch) && body[p].layer_id
                    == a[i].id && box_holds(body[p].coords@, ts);
            assert(b[k].hit(ts) == Some(body[p].value));
        }
    }
    assert forall|i: int| 0 <= i < a.len() && a[i].hit(ts) is Some implies #[trigger] has_id(
        b,
        a[i].id,
    ) by {
        assert(makes_layer(group_of(body, lens, epoch, a[i].id)));
    }
    assert forall|k: int| 0 <= k < b.len() && b[k].hit(ts) is Some implies #[trigger] has_id(
        a,
        b[k].id,
    ) by {
        assert(makes_layer(group_of(body, lens, epoch, b[k].id)));
    }
    lemma_same_newest(a, b, ts, as_of);
}

/// The runs give one answer.
pub proof fn lemma_one_answer<V>(
    runs: Seq<RunV<V>>,
    lens: Seq<char>,
    epoch: u64,
    ts: Seq<Timestamp>,
    as_of: Option<i64>,
    r: Option<V>,
    s: Option<V>,
)
    requires
        runs_answer(runs, lens, epoch, ts, as_of, r),
        runs_answer(runs, lens, epoch, ts, as_of, s),
    ensures
        r == s,
    decreases runs.len(),
{
    if runs.len() > 0 {
        if ruled_out(runs.last().footer, lens, ts[0]) || runs.last().body is Err {
            lemma_one_answer(runs.drop_last(), lens, epoch, ts, as_of, r, s);
        } else {
            let body = runs.last().body->Ok_0;
            let a = choose|stack: Seq<Layer<V>>| #[trigger]
                rebuilt(body, lens, epoch, stack) && if newest(stack, ts, as_of) is Some {
                    r == newest(stack, ts, as_of)
                } else {
                    runs_answer(runs.drop_last(), lens, epoch, ts, as_of, r)
                };
            let b = choose|stack: Seq<Layer<V>>| #[trigger]
                rebuilt(body, lens, epoch, stack) && if newest(stack, ts, as_of) is Some {
                    s == newest(stack, ts, as_of)
                } else {
                    runs_answer(runs.drop_last(), lens, epoch, ts, as_of, s)
                };
            lemma_rebuilt_alike(body, lens, epoch, a, b, ts, as_of);
            if newest(a, ts, as_of) is None {
                lemma_one_answer(runs.drop_last(), lens, epoch, ts, as_of, r, s);
            }
        }
    }
}

/// A store gives one answer to a lookup.
pub proof fn law_store_gives_one_answer<V>(
    v: StoreV<V>,
    lens: Seq<char>,
    ts: Seq<Timestamp>,
    as_of: Option<i64>,
    r: Option<V>,
    s: Option<V>,
)
    requires
        store_answers(v, lens, ts, as_of, r),
        store_answers(v, lens, ts, as_of, s),
    ensures
        r == s,
{
    if ts.len() > 0 && newest(stack_of(v.memtable, lens), ts, as_of) is None {
        lemma_one_answer(v.runs, lens, v.epoch(lens), ts, as_of, r, s);
    }
}

/// What a run whose footer rules the point out would say: nothing.
proof fn lemma_ruled_out_is_silent<V: View>(
    body: Seq<RunEntry<V>>,
    footer: FooterV,
    lens: Seq<char>,
    epoch: u64,
    stack: Seq<Layer<V>>,
    ts: Seq<Timestamp>,
    as_of: Option<i64>,
)
    requires
        tells(footer, entry_views(body)),
        entries_sound(entry_views(body)),
        rebuilt(body, lens, epoch, stack),
        ts.len() > 0,
        ruled_out(footer, lens, ts[0]),
    ensures
        newest(stack, ts, as_of) is None,
{
    lemma_newest_top(stack, ts, as_of);
    assert forall|i: int| 0 <= i < stack.len() implies (#[trigger] stack[i]).hit(ts) is None by {
        lemma_rebuilt_hit(body, lens, epoch, stack[i], ts);
        if stack[i].hit(ts) is Some {
            let p = choose|p: int|
                0 <= p < body.len() && is_live(#[trigger] body[p], lens, epoch) && body[p].layer_id
                    == stack[i].id && box_holds(body[p].coords@, ts);
            let es = entry_views(body);
            assert(es[p].lens == lens);
            assert(es[p].coords[0].holds(ts[0]));
            law_footer_never_misleads(footer, es, p, ts[0]);
        }
    }
}

/// The run can be read and its footer tells the truth.
pub open spec fn run_sound<V: View>(run: RunV<V>) -> bool {
    run.body is Ok && tells(run.footer, entry_views(run.body->Ok_0)) && entries_sound(
        entry_views(run.body->Ok_0),
    )
}

/// The run says nothing of the lens as it is now.
pub open spec fn quiet_run<V>(run: RunV<V>, lens: Seq<char>, epoch: u64) -> bool {
    ||| !run.footer.contains_key(lens)
    ||| run.body is Ok && forall|k: int|
        #![trigger run.body->Ok_0[k]]
        0 <= k < run.body->Ok_0.len() && run.body->Ok_0[k].lens@ == lens
            ==> run.body->Ok_0[k].epoch != epoch
}

proof fn lemma_quiet_stack<V>(
    body: Seq<RunEntry<V>>,
    lens: Seq<char>,
    epoch: u64,
    stack: Seq<Layer<V>>,
    ts: Seq<Timestamp>,
    as_of: Option<i64>,
)
    requires
        rebuilt(body, lens, epoch, stack),
        forall|k: int|
            #![trigger body[k]]
            0 <= k < body.len() && body[k].lens@ == lens ==> body[k].epoch != epoch,
    ensures
        newest(stack, ts, as_of) is None,
{
    lemma_newest_top(stack, ts, as_of);
    assert forall|i: int| 0 <= i < stack.len() implies (#[trigger] stack[i]).hit(ts) is None by {
        lemma_rebuilt_hit(body, lens, epoch, stack[i], ts);
        if stack[i].hit(ts) is Some {
            let p = choose|p: int|
                0 <= p < body.len() && is_live(#[trigger] body[p], lens, epoch)
                    && body[p].layer_id == stack[i].id && box_holds(body[p].coords@, ts);
            assert(body[p].epoch != epoch);
        }
    }
}

/// What runs say of a point is what their layers say as one stack, where the runs that are
/// left out say nothing.
pub proof fn lemma_runs_answer_newest<V: View>(
    runs: Seq<RunV<V>>,
    picks: Seq<bool>,
    lens: Seq<char>,
    epoch: u64,
    ts: Seq<Timestamp>,
    as_of: Option<i64>,
    r: Option<V>,
    below: Seq<Layer<V>>,
)
    requires
        ts.len() > 0,
        runs_answer(runs, lens, epoch, ts, as_of, r),
        gathered(runs, picks, lens, epoch, below),
        picks.len() >= runs.len(),
        forall|i: int|
            0 <= i < runs.len() ==> (#[trigger] picks[i]) || quiet_run(runs[i], lens, epoch),
        forall|i: int| 0 <= i < runs.len() ==> run_sound(#[trigger] runs[i]),
    ensures
        r == newest(below, ts, as_of),
    decreases runs.len(),
{
    if runs.len() > 0 {
        let front = runs.drop_last();
        let n = runs.len() - 1;
        assert(run_sound(runs[n]));
        assert(picks[n] || quiet_run(runs[n], lens, epoch));
        assert forall|i: int| 0 <= i < front.len() implies run_sound(#[trigger] front[i]) by {
            assert(run_sound(runs[i]));
        }
        assert forall|i: int| 0 <= i < front.len() implies (#[trigger] picks[i]) || quiet_run(
            front[i],
            lens,
            epoch,
        ) by {
            assert(front[i] == runs[i]);
        }
        let body = runs.last().body->Ok_0;
        let silent = ruled_out(runs.last().footer, lens, ts[0]);
        let a = choose|stack: Seq<Layer<V>>| #[trigger]
            rebuilt(body, lens, epoch, stack) && if newest(stack, ts, as_of) is Some {
                r == newest(stack, ts, as_of)
            } else {
                runs_answer(front, lens, epoch, ts, as_of, r)
            };
        if !picks[n] {
            if !silent {
                lemma_quiet_stack(body, lens, epoch, a, ts, as_of);
            }
            lemma_runs_answer_newest(front, picks, lens, epoch, ts, as_of, r, below);
        } else {
            let top = choose|stack: Seq<Layer<V>>| #[trigger]
                rebuilt(body, lens, epoch, stack) && stack.len() <= below.len() && below.skip(
                    below.len() - stack.len(),
                ) == stack && gathered(
                    front,
                    picks,
                    lens,
                    epoch,
                    below.take(below.len() - stack.len()),
                );
            let rest = below.take(below.len() - top.len());
            assert(rest + top =~= below);
            lemma_newest_split(rest, top, ts, as_of);
            if silent {
                lemma_ruled_out_is_silent(body, runs.last().footer, lens, epoch, top, ts, as_of);
                lemma_runs_answer_newest(front, picks, lens, epoch, ts, as_of, r, rest);
            } else {
                lemma_rebuilt_alike(body, lens, epoch, a, top, ts, as_of);
                if newest(a, ts, as_of) is None {
                    lemma_runs_answer_newest(front, picks, lens, epoch, ts, as_of, r, rest);
                }
            }
        }
    }
}

/// A lookup in a store whose runs are sound sees all its layers as one stack, the runs
/// below the memory: passing over runs that their footers rule out changes nothing.
pub proof fn law_lookup_sees_all_layers<V: View>(
    v: StoreV<V>,
    lens: Seq<char>,
    ts: Seq<Timestamp>,
    as_of: Option<i64>,
    r: Option<V>,
    whole: Seq<Layer<V>>,
)
    requires
        ts.len() > 0,
        store_answers(v, lens, ts, as_of, r),
        combined(v, lens, every_run(), whole),
        forall|i: int| 0 <= i < v.runs.len() ==> run_sound(#[trigger] v.runs[i]),
    ensures
        r == newest(whole, ts, as_of),
{
    let (picks, below) = choose|picks: Seq<bool>, below: Seq<Layer<V>>|
        chosen(v.runs, picks, every_run()) && #[trigger] gathered(
            v.runs,
            picks,
            lens,
            v.epoch(lens),
            below,
        ) && whole == below + stack_of(v.memtable, lens);
    lemma_newest_split(below, stack_of(v.memtable, lens), ts, as_of);
    if newest(stack_of(v.memtable, lens), ts, as_of) is None {
        lemma_runs_answer_newest(v.runs, picks, lens, v.epoch(lens), ts, as_of, r, below);
    }
}

/// A flush changes no answer: what was in memory is found in the run.
pub proof fn law_flush_changes_no_answer<V: Codec>(
    v: StoreV<V>,
    key: Option<Seq<u8>>,
    level: i32,
    entries: Seq<RunEntry<V>>,
    footer: FooterV,
    acts: Seq<FileAction>,
    after: StoreV<V>,
    lens: Seq<char>,
    ts: Seq<Timestamp>,
    as_of: Option<i64>,
    r: Option<V>,
    s: Option<V>,
)
    requires
        v.wf(),
        flushed::<V>(v, key, level, entries, footer, acts, after),
        ids_ascend(stack_of(v.memtable, lens)),
        forall|i: int|
            0 <= i < stack_of(v.memtable, lens).len() ==> one_arity(
                (#[trigger] stack_of(v.memtable, lens)[i]).taus@,
            ),
        store_answers(v, lens, ts, as_of, r),
        store_answers(after, lens, ts, as_of, s),
    ensures
        r == s,
{
    let mem = stack_of(v.memtable, lens);
    let epoch = v.epoch(lens);
    assert(stack_wf(mem));
    assert(stack_of(after.memtable, lens).len() == 0);
    assert(newest(stack_of(after.memtable, lens), ts, as_of) is None);
    if ts.len() > 0 {
        if entries.len() == 0 {
            lemma_newest_top(mem, ts, as_of);
            assert forall|i: int| 0 <= i < mem.len() implies (#[trigger] mem[i]).hit(ts) is None by {
                crate::model::lemma_no_hit(mem[i].taus@, ts);
                if mem[i].taus@.len() > 0 {
                    let o: Origin = (lens, i, 0);
                    let origins = choose|origins: Seq<Origin>| #[trigger]
                        comes_from(entries, v.memtable, v.epochs, origins);
                    assert(crate::flatten::is_origin(v.memtable, o));
                }
            }
            lemma_one_answer(v.runs, lens, epoch, ts, as_of, r, s);
        } else {
            let run = after.runs.last();
            assert(after.runs.drop_last() =~= v.runs);
            crate::sstable::lemma_flat_sound(entries, v.memtable, v.epochs);
            assert(tells(footer, entry_views(entries))) by {
                let bytes = acts[0]->bytes@;
                let (names, body, foot) = choose|names: Seq<String>, body: Seq<u8>, foot: Seq<u8>|
                    #[trigger]
                    run_parts::<V>(
                        bytes,
                        entry_views(entries),
                        key,
                        level,
                        footer,
                        names,
                        body,
                        foot,
                    );
            }
            if ruled_out(footer, lens, ts[0]) {
                lemma_stacks_ruled_out(
                    v.memtable,
                    v.epochs,
                    entries,
                    footer,
                    lens,
                    ts,
                    as_of,
                );
                lemma_one_answer(v.runs, lens, epoch, ts, as_of, r, s);
            } else {
                let stack = choose|stack: Seq<Layer<V>>| #[trigger]
                    rebuilt(entries, lens, epoch, stack) && if newest(stack, ts, as_of) is Some {
                        s == newest(stack, ts, as_of)
                    } else {
                        runs_answer(v.runs, lens, epoch, ts, as_of, s)
                    };
                law_run_answers_alike(entries, v.memtable, v.epochs, lens, stack, ts, as_of);
                if newest(mem, ts, as_of) is None {
                    lemma_one_answer(v.runs, lens, epoch, ts, as_of, r, s);
                }
            }
        }
    }
}

/// Where the footer of the new run rules a point out, the stacks that it was made of said nothing of
/// it.
pub proof fn lemma_stacks_ruled_out<V: Codec>(
    stacks: Stacks<V>,
    epochs: Map<Seq<char>, u64>,
    entries: Seq<RunEntry<V>>,
    footer: FooterV,
    lens: Seq<char>,
    ts: Seq<Timestamp>,
    as_of: Option<i64>,
)
    requires
        flattened(entries, stacks, epochs),
        tells(footer, entry_views(entries)),
        entries_sound(entry_views(entries)),
        ts.len() > 0,
        ruled_out(footer, lens, ts[0]),
    ensures
        newest(stack_of(stacks, lens), ts, as_of) is None,
{
    let mem = stack_of(stacks, lens);
    lemma_newest_top(mem, ts, as_of);
    let origins = choose|origins: Seq<Origin>| #[trigger]
        comes_from(entries, stacks, epochs, origins);
    assert forall|i: int| 0 <= i < mem.len() implies (#[trigger] mem[i]).hit(ts) is None by {
        crate::model::lemma_no_hit(mem[i].taus@, ts);
        if mem[i].hit(ts) is Some {
            let b = choose|b: int| 0 <= b < mem[i].taus@.len() && (#[trigger] mem[i].taus@[b]).covers(
                ts,
            );
            let o: Origin = (lens, i, b);
            assert(crate::flatten::is_origin(stacks, o));
            let q = choose|q: int| 0 <= q < origins.len() && #[trigger] origins[q] == o;
            assert(entry_says(entries[q], stacks, epochs, o));
            let es = entry_views(entries);
            assert(es[q].lens == lens);
            assert(mem[i].taus@[b].coords@[0].holds(ts[0]));
            law_footer_never_misleads(footer, es, q, ts[0]);
        }
    }
}

/// No entry in any run is of an epoch that its lens has yet to reach.
pub open spec fn epochs_bounded<V>(v: StoreV<V>) -> bool {
    forall|i: int, k: int|
        #![trigger v.runs[i].body->Ok_0[k]]
        0 <= i < v.runs.len() && v.runs[i].body is Ok && 0 <= k < v.runs[i].body->Ok_0.len()
            ==> v.runs[i].body->Ok_0[k].epoch <= v.epoch(v.runs[i].body->Ok_0[k].lens@)
}

pub proof fn lemma_dead_is_silent<V>(
    runs: Seq<RunV<V>>,
    lens: Seq<char>,
    epoch: u64,
    ts: Seq<Timestamp>,
    as_of: Option<i64>,
    r: Option<V>,
)
    requires
        runs_answer(runs, lens, epoch, ts, as_of, r),
        forall|i: int, k: int|
            #![trigger runs[i].body->Ok_0[k]]
            0 <= i < runs.len() && runs[i].body is Ok && 0 <= k < runs[i].body->Ok_0.len()
                && runs[i].body->Ok_0[k].lens@ == lens ==> runs[i].body->Ok_0[k].epoch != epoch,
    ensures
        r is None,
    decreases runs.len(),
{
    if runs.len() > 0 {
        let front = runs.drop_last();
        assert forall|i: int, k: int|
            #![trigger front[i].body->Ok_0[k]]
            0 <= i < front.len() && front[i].body is Ok && 0 <= k < front[i].body->Ok_0.len()
                && front[i].body->Ok_0[k].lens@ == lens implies front[i].body->Ok_0[k].epoch
            != epoch by {
            assert(runs[i].body->Ok_0[k].epoch != epoch);
        }
        if ruled_out(runs.last().footer, lens, ts[0]) || runs.last().body is Err {
            lemma_dead_is_silent(front, lens, epoch, ts, as_of, r);
        } else {
            let n = runs.len() - 1;
            let body = runs[n].body->Ok_0;
            let stack = choose|stack: Seq<Layer<V>>| #[trigger]
                rebuilt(body, lens, epoch, stack) && if newest(stack, ts, as_of) is Some {
                    r == newest(stack, ts, as_of)
                } else {
                    runs_answer(front, lens, epoch, ts, as_of, r)
                };
            lemma_newest_top(stack, ts, as_of);
            assert forall|i: int| 0 <= i < stack.len() implies (#[trigger] stack[i]).hit(
                ts,
            ) is None by {
                lemma_rebuilt_hit(body, lens, epoch, stack[i], ts);
                if stack[i].hit(ts) is Some {
                    let p = choose|p: int|
                        0 <= p < body.len() && is_live(#[trigger] body[p], lens, epoch)
                            && body[p].layer_id == stack[i].id && box_holds(body[p].coords@, ts);
                    assert(runs[n].body->Ok_0[p].epoch != epoch);
                }
            }
            lemma_dead_is_silent(front, lens, epoch, ts, as_of, r);
        }
    }
}

/// A dropped lens has no values any more, though the runs that hold them stay.
pub proof fn law_drop_hides_everything<V>(
    v: StoreV<V>,
    lens: Seq<char>,
    ts: Seq<Timestamp>,
    as_of: Option<i64>,
    r: Option<V>,
)
    requires
        epochs_bounded(v),
        v.epoch(lens) < u64::MAX,
        store_answers(dropped(v, lens), lens, ts, as_of, r),
    ensures
        r is None,
{
    let after = dropped(v, lens);
    assert(stack_of(after.memtable, lens).len() == 0);
    assert(after.epoch(lens) == v.epoch(lens) + 1);
    if ts.len() > 0 {
        assert forall|i: int, k: int|
            #![trigger after.runs[i].body->Ok_0[k]]
            0 <= i < after.runs.len() && after.runs[i].body is Ok && 0 <= k
                < after.runs[i].body->Ok_0.len() && after.runs[i].body->Ok_0[k].lens@
                == lens implies after.runs[i].body->Ok_0[k].epoch != after.epoch(lens) by {
            assert(v.runs[i].body->Ok_0[k].epoch <= v.epoch(lens));
        }
        lemma_dead_is_silent(after.runs, lens, after.epoch(lens), ts, as_of, r);
    }
}

/// Dropping a lens leaves no entry of an epoch to come.
pub proof fn law_drop_keeps_epochs_bounded<V>(v: StoreV<V>, lens: Seq<char>)
    requires
        epochs_bounded(v),
        v.epoch(lens) < u64::MAX,
    ensures
        epochs_bounded(dropped(v, lens)),
{
    let after = dropped(v, lens);
    assert forall|i: int, k: int|
        #![trigger after.runs[i].body->Ok_0[k]]
        0 <= i < after.runs.len() && after.runs[i].body is Ok && 0 <= k
            < after.runs[i].body->Ok_0.len() implies after.runs[i].body->Ok_0[k].epoch
        <= after.epoch(after.runs[i].body->Ok_0[k].lens@) by {
        assert(v.runs[i].body->Ok_0[k].epoch <= v.epoch(v.runs[i].body->Ok_0[k].lens@));
    }
}

/// A flush leaves no entry of an epoch to come.
pub proof fn law_flush_keeps_epochs_bounded<V: Codec>(
    v: StoreV<V>,
    key: Option<Seq<u8>>,
    level: i32,
    entries: Seq<RunEntry<V>>,
    footer: FooterV,
    acts: Seq<FileAction>,
    after: StoreV<V>,
)
    requires
        epochs_bounded(v),
        flushed::<V>(v, key, level, entries, footer, acts, after),
    ensures
        epochs_bounded(after),
{
    let origins = choose|origins: Seq<Origin>| #[trigger]
        comes_from(entries, v.memtable, v.epochs, origins);
    assert forall|i: int, k: int|
        #![trigger after.runs[i].body->Ok_0[k]]
        0 <= i < after.runs.len() && after.runs[i].body is Ok && 0 <= k
            < after.runs[i].body->Ok_0.len() implies after.runs[i].body->Ok_0[k].epoch
        <= after.epoch(after.runs[i].body->Ok_0[k].lens@) by {
        if i < v.runs.len() {
            assert(after.runs[i] == v.runs[i]);
            assert(v.runs[i].body->Ok_0[k].epoch <= v.epoch(v.runs[i].body->Ok_0[k].lens@));
        } else {
            assert(after.runs[i].body->Ok_0 == entries);
            assert(entry_says(entries[k], v.memtable, v.epochs, origins[k]));
        }
    }
}

proof fn lemma_pairs_back(names: Seq<String>, m: Map<Seq<char>, u64>, n: int)
    requires
        lists_keys(names, m),
        0 <= n <= names.len(),
    ensures
        ({
            let pairs = Seq::new(names.len(), |i: int| (names[i]@, m[names[i]@]));
            let part = as_pairs(pairs.take(n));
            &&& forall|k: Seq<char>| #[trigger]
                part.contains_key(k) <==> exists|j: int| 0 <= j < n && (#[trigger] names[j])@ == k
            &&& forall|k: Seq<char>| #[trigger] part.contains_key(k) ==> part[k] == m[k]
        }),
    decreases n,
{
    let pairs = Seq::new(names.len(), |i: int| (names[i]@, m[names[i]@]));
    let part = as_pairs(pairs.take(n));
    if n > 0 {
        lemma_pairs_back(names, m, n - 1);
        let less = as_pairs(pairs.take(n - 1));
        assert(pairs.take(n).drop_last() =~= pairs.take(n - 1));
        assert(pairs.take(n).last() == pairs[n - 1]);
        assert forall|k: Seq<char>| #[trigger] part.contains_key(k) <==> exists|j: int|
            0 <= j < n && (#[trigger] names[j])@ == k by {
            if part.contains_key(k) {
                if k == names[n - 1]@ {
                    assert(names[n - 1]@ == k);
                } else {
                    assert(less.contains_key(k));
                }
            }
            if exists|j: int| 0 <= j < n && (#[trigger] names[j])@ == k {
                let j = choose|j: int| 0 <= j < n && (#[trigger] names[j])@ == k;
                if j < n - 1 {
                    assert(less.contains_key(k));
                }
            }
        }
        assert forall|k: Seq<char>| #[trigger] part.contains_key(k) implies part[k] == m[k] by {
            if k != names[n - 1]@ {
                assert(less.contains_key(k));
            }
        }
    }
}

proof fn lemma_pairs_same(pairs: Seq<(Seq<char>, u64)>, m: Map<Seq<char>, u64>)
    requires
        pairs_list(pairs, m),
    ensures
        as_pairs(pairs) == m,
{
    let names = choose|names: Seq<String>| #[trigger]
        lists_keys(names, m) && pairs == Seq::new(
            names.len(),
            |i: int| (names[i]@, m[names[i]@]),
        );
    lemma_pairs_back(names, m, names.len() as int);
    assert(pairs.take(names.len() as int) =~= pairs);
    assert forall|k: Seq<char>| as_pairs(pairs).contains_key(k) <==> m.contains_key(k) by {
        if m.contains_key(k) {
            assert(listed(names, k));
        }
        if as_pairs(pairs).contains_key(k) {
            assert(listed(names, k));
        }
    }
    assert(as_pairs(pairs) =~= m);
}

/// A store that is opened again from what its manifest says and from files that hold its
/// runs is the store that it was, but for what had not been flushed.
pub proof fn law_reopening_restores<V: Codec>(
    v: StoreV<V>,
    m: ManifestV,
    files: Seq<Vec<u8>>,
    key: Option<Seq<u8>>,
    back: StoreV<V>,
)
    requires
        manifest_says(m, v),
        v.next_run_id > 0,
        opened::<V>(m, files, key, back),
        files.len() == v.runs.len(),
        forall|i: int|
            0 <= i < v.runs.len() ==> run_read::<V>(
                #[trigger] v.runs[i],
                v.runs[i].id,
                files[i]@,
                key,
            ),
    ensures
        back.schema == v.schema,
        forall|lens: Seq<char>| #[trigger]
            back.live.contains_key(lens) <==> v.live.contains_key(lens),
        back.epochs == v.epochs,
        back.layer_count == v.layer_count,
        back.next_run_id == v.next_run_id,
        back.runs.len() == v.runs.len(),
        forall|i: int|
            0 <= i < v.runs.len() ==> {
                &&& (#[trigger] back.runs[i]).id == v.runs[i].id
                &&& back.runs[i].footer == v.runs[i].footer
                &&& v.runs[i].body is Ok ==> back.runs[i].body is Ok && entry_views(
                    back.runs[i].body->Ok_0,
                ) == entry_views(v.runs[i].body->Ok_0)
            },
{
    lemma_pairs_same(m.epochs, v.epochs);
    let wide = v.layer_count.map_values(|n: usize| n as u64);
    lemma_pairs_same(m.layer_counts, wide);
    assert(wide.map_values(|n: u64| n as usize) =~= v.layer_count) by {
        assert forall|k: Seq<char>| v.layer_count.contains_key(k) implies (wide[k] as usize)
            == v.layer_count[k] by {
            let n = v.layer_count[k];
            assert((n as u64) as usize == n);
        }
    }
    let names = choose|names: Seq<String>| #[trigger]
        lists_keys(names, v.live) && m.live_lenses == texts_of(names);
    assert forall|lens: Seq<char>| #[trigger] back.live.contains_key(lens)
        <==> v.live.contains_key(lens) by {
        if v.live.contains_key(lens) {
            assert(listed(names, lens));
            let k = choose|k: int| 0 <= k < names.len() && (#[trigger] names[k])@ == lens;
            assert(m.live_lenses[k] == lens);
        }
        if m.live_lenses.contains(lens) {
            let k = choose|k: int| 0 <= k < m.live_lenses.len() && m.live_lenses[k] == lens;
            assert(names[k]@ == lens);
            assert(listed(names, lens));
        }
    }
    assert forall|i: int| 0 <= i < v.runs.len() implies {
        &&& (#[trigger] back.runs[i]).id == v.runs[i].id
        &&& back.runs[i].footer == v.runs[i].footer
        &&& v.runs[i].body is Ok ==> back.runs[i].body is Ok && entry_views(
            back.runs[i].body->Ok_0,
        ) == entry_views(v.runs[i].body->Ok_0)
    } by {
        assert(run_read::<V>(v.runs[i], v.runs[i].id, files[i]@, key));
        assert(run_read::<V>(back.runs[i], m.run_ids[i], files[i]@, key));
    }
}

} // verus!
