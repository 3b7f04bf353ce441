//! A store whose layers live in immutable runs.
//!
//! Appends go to stacks in memory. A flush moves them into a new run. A lookup asks the
//! memory first and then the runs, newest first; the newest layer that covers the point
//! wins. A lens whose layers have grown past its threshold, in memory and in all runs
//! together, is compacted: what the runs hold of it is taken back into memory, and its
//! epoch moves on, so that what the runs hold of past epochs is dead. Dropping a lens moves
//! its epoch on as well.

use crate::bytes::FormatError;
use crate::codec::Codec;
use crate::flatten::{epoch_of, flatten, flattened, stacks_view, stacks_wf};
use crate::layers::{
    compact_layers, compacted, layers_get, newest, probe, scan_layers, stack_wf, traces, Segment,
};
use crate::manifest::{
    checked_content, is_manifest, pairs_of, texts_of, write_manifest, ManifestData, ManifestV,
};
use crate::crypto::MESSAGE_LIMIT;
use crate::memory::{stack_of, Limits, Stacks, COMPACT_THRESHOLD};
use crate::model::{Datum, Layer, Timestamp};
use crate::names::{listed, lists_keys, NameMap};
use crate::order::{ascending, linked, rearranged, sort_in_place, Rank};
use crate::rebuild::{rebuild, rebuilt};
use crate::run::{
    entries_of, entries_sound, entry_views, filters_wf, footer_of, footer_view, is_run_file,
    key_bytes, may_hold, read_run_entries, read_run_footer, ruled_out, run_refused, write_run,
    FooterV, LensRunStats, RunEntry,
};
use vstd::prelude::*;

verus! {

/// How strongly runs are compressed, unless told otherwise.
pub const DEFAULT_ZSTD_LEVEL: i32 = 3;

/// A run: its footer, and its entries or why they cannot be read.
#[derive(Debug)]
pub struct RunHandle<V> {
    pub id: u64,
    pub stats: NameMap<LensRunStats>,
    pub body: Result<Vec<RunEntry<V>>, FormatError>,
}

#[verifier::ext_equal]
pub struct RunV<V> {
    pub id: u64,
    pub footer: FooterV,
    pub body: Result<Seq<RunEntry<V>>, FormatError>,
}

impl<V> View for RunHandle<V> {
    type V = RunV<V>;

    open spec fn view(&self) -> RunV<V> {
        RunV {
            id: self.id,
            footer: footer_view(self.stats@),
            body: match self.body {
                Ok(entries) => Ok(entries@),
                Err(e) => Err(e),
            },
        }
    }
}

pub open spec fn run_views<V>(runs: Seq<RunHandle<V>>) -> Seq<RunV<V>> {
    runs.map_values(|r: RunHandle<V>| r@)
}

/// A file that is to be written or removed.
#[derive(Debug, Clone, PartialEq, Eq)]
pub enum FileAction {
    /// The manifest is to hold these bytes.
    Manifest(Vec<u8>),
    /// The file of a run is to hold these bytes.
    Run { id: u64, bytes: Vec<u8> },
    /// The file of a run is to go.
    RemoveRun { id: u64 },
}

/// What a store holds.
#[verifier::ext_equal]
pub struct StoreV<V> {
    pub memtable: Stacks<V>,
    /// Oldest first.
    pub runs: Seq<RunV<V>>,
    pub schema: Seq<Seq<char>>,
    pub live: Map<Seq<char>, ()>,
    pub epochs: Map<Seq<char>, u64>,
    pub next_run_id: u64,
    /// Which runs were taken back into memory, by lens.
    pub absorbed: Map<Seq<char>, Seq<u64>>,
    /// How many layers a lens has, in memory and in all runs.
    pub layer_count: Map<Seq<char>, usize>,
}

impl<V> StoreV<V> {
    pub open spec fn wf(self) -> bool {
        &&& stacks_wf(self.memtable)
        &&& forall|i: int| 0 <= i < self.runs.len() ==> filters_wf((#[trigger] self.runs[i]).footer)
    }

    pub open spec fn epoch(self, lens: Seq<char>) -> u64 {
        epoch_of(self.epochs, lens)
    }

    pub open spec fn count(self, lens: Seq<char>) -> usize {
        if self.layer_count.contains_key(lens) {
            self.layer_count[lens]
        } else {
            0
        }
    }

    /// The run was taken back into memory for the lens.
    pub open spec fn has_absorbed(self, lens: Seq<char>, id: u64) -> bool {
        self.absorbed.contains_key(lens) && self.absorbed[lens].contains(id)
    }
}

/// A store of runs.
#[derive(Debug)]
pub struct Sstable<V> {
    pub key: Option<[u8; 32]>,
    pub compression_level: i32,
    pub compact_threshold: usize,
    /// How many runs there may be before they are merged.
    pub run_gc_threshold: usize,
    pub lens_compact: NameMap<usize>,
    pub memtable: NameMap<Vec<Layer<V>>>,
    pub runs: Vec<RunHandle<V>>,
    pub schema: Vec<String>,
    pub live_lenses: NameMap<()>,
    pub lens_epoch: NameMap<u64>,
    pub next_run_id: u64,
    pub absorbed: NameMap<Vec<u64>>,
    pub layer_count: NameMap<usize>,
}

impl<V> View for Sstable<V> {
    type V = StoreV<V>;

    open spec fn view(&self) -> StoreV<V> {
        StoreV {
            memtable: stacks_view(self.memtable@),
            runs: run_views(self.runs@),
            schema: texts_of(self.schema@),
            live: self.live_lenses@,
            epochs: self.lens_epoch@,
            next_run_id: self.next_run_id,
            absorbed: self.absorbed@.map_values(|ids: Vec<u64>| ids@),
            layer_count: self.layer_count@,
        }
    }
}

impl<V> Sstable<V> {
    /// The thresholds for compaction.
    pub open spec fn limits(&self) -> Limits {
        Limits { general: self.compact_threshold, own: self.lens_compact@ }
    }
}

/// The settings stay as they are.
pub open spec fn same_settings<V>(a: &Sstable<V>, b: &Sstable<V>) -> bool {
    &&& a.key == b.key
    &&& a.compression_level == b.compression_level
    &&& a.run_gc_threshold == b.run_gc_threshold
    &&& a.limits() == b.limits()
}

/// What the manifest says of the map, in name order.
pub open spec fn pairs_list(pairs: Seq<(Seq<char>, u64)>, m: Map<Seq<char>, u64>) -> bool {
    exists|names: Seq<String>| #[trigger]
        lists_keys(names, m) && pairs == Seq::new(
            names.len(),
            |i: int| (names[i]@, m[names[i]@]),
        )
}

/// The manifest says what must be known of the store when it is opened again.
pub open spec fn manifest_says<V>(m: ManifestV, v: StoreV<V>) -> bool {
    &&& m.schema == v.schema
    &&& exists|names: Seq<String>| #[trigger]
        lists_keys(names, v.live) && m.live_lenses == texts_of(names)
    &&& pairs_list(m.epochs, v.epochs)
    &&& m.run_ids == v.runs.map_values(|r: RunV<V>| r.id)
    &&& m.next_run_id == v.next_run_id
    &&& pairs_list(m.layer_counts, v.layer_count.map_values(|n: usize| n as u64))
}

/// The bytes are the manifest of the store.
pub open spec fn manifest_file<V>(file: Seq<u8>, v: StoreV<V>, key: Option<Seq<u8>>) -> bool {
    exists|m: ManifestV| #[trigger] manifest_says(m, v) && is_manifest(file, m, key)
}

/// Encrypting the manifest fails only where it is longer than one nonce can carry.
pub open spec fn manifest_refused<V>(e: FormatError, v: StoreV<V>, key: Option<[u8; 32]>) -> bool {
    e == FormatError::Encryption && key is Some && exists|m: ManifestV| #[trigger]
        manifest_says(m, v) && checked_content(m).len() > MESSAGE_LIMIT
}

fn copy_texts(items: &Vec<String>) -> (r: Vec<String>)
    ensures
        texts_of(r@) == texts_of(items@),
{
    let mut out: Vec<String> = Vec::new();
    let mut i: usize = 0;
    while i < items.len()
        invariant
            i <= items@.len(),
            out@.len() == i,
            forall|k: int| 0 <= k < i ==> (#[trigger] out@[k])@ == items@[k]@,
        decreases items@.len() - i,
    {
        out.push(items[i].clone());
        i = i + 1;
    }
    assert(texts_of(out@) =~= texts_of(items@));
    out
}

fn list_epochs(m: &NameMap<u64>) -> (r: Vec<(String, u64)>)
    ensures
        pairs_list(pairs_of(r@), m@),
{
    let names = m.names();
    let mut out: Vec<(String, u64)> = Vec::new();
    let mut i: usize = 0;
    while i < names.len()
        invariant
            i <= names@.len(),
            lists_keys(names@, m@),
            out@.len() == i,
            forall|k: int|
                0 <= k < i ==> (#[trigger] out@[k]).0@ == names@[k]@ && out@[k].1 == m@[names@[k]@],
        decreases names@.len() - i,
    {
        assert(listed(names@, names@[i as int]@));
        if let Some(n) = m.get(names[i].as_str()) {
            out.push((names[i].clone(), *n));
        }
        i = i + 1;
    }
    proof {
        let want = Seq::new(names@.len(), |i: int| (names@[i]@, m@[names@[i]@]));
        assert(pairs_of(out@) =~= want);
    }
    out
}

fn list_counts(m: &NameMap<usize>) -> (r: Vec<(String, u64)>)
    ensures
        pairs_list(pairs_of(r@), m@.map_values(|n: usize| n as u64)),
{
    let ghost wide = m@.map_values(|n: usize| n as u64);
    let names = m.names();
    proof {
        assert forall|k: Seq<char>| #[trigger] wide.contains_key(k) <==> listed(names@, k) by {
            assert(wide.contains_key(k) <==> m@.contains_key(k));
        }
    }
    let mut out: Vec<(String, u64)> = Vec::new();
    let mut i: usize = 0;
    while i < names.len()
        invariant
            i <= names@.len(),
            wide == m@.map_values(|n: usize| n as u64),
            lists_keys(names@, wide),
            out@.len() == i,
            forall|k: int|
                0 <= k < i ==> (#[trigger] out@[k]).0@ == names@[k]@ && out@[k].1
                    == wide[names@[k]@],
        decreases names@.len() - i,
    {
        assert(listed(names@, names@[i as int]@));
        assert(wide.contains_key(names@[i as int]@));
        if let Some(n) = m.get(names[i].as_str()) {
            out.push((names[i].clone(), *n as u64));
        }
        i = i + 1;
    }
    proof {
        let want = Seq::new(names@.len(), |i: int| (names@[i]@, wide[names@[i]@]));
        assert(pairs_of(out@) =~= want);
    }
    out
}

impl<V> Sstable<V> {
    /// The manifest of the store, as bytes.
    pub fn manifest(&self) -> (r: Result<Vec<u8>, FormatError>)
        ensures
            match r {
                Ok(file) => manifest_file(file@, self@, key_bytes(self.key)),
                Err(e) => manifest_refused(e, self@, self.key),
            },
    {
        let mut run_ids: Vec<u64> = Vec::new();
        let mut i: usize = 0;
        while i < self.runs.len()
            invariant
                i <= self.runs@.len(),
                run_ids@.len() == i,
                forall|k: int| 0 <= k < i ==> #[trigger] run_ids@[k] == self.runs@[k].id,
            decreases self.runs@.len() - i,
        {
            run_ids.push(self.runs[i].id);
            i = i + 1;
        }
        let data = ManifestData {
            schema: copy_texts(&self.schema),
            live_lenses: self.live_lenses.names(),
            epochs: list_epochs(&self.lens_epoch),
            run_ids,
            next_run_id: self.next_run_id,
            layer_counts: list_counts(&self.layer_count),
        };
        proof {
            assert(data@.run_ids =~= self@.runs.map_values(|r: RunV<V>| r.id));
            assert(lists_keys(data.live_lenses@, self@.live));
            assert(manifest_says(data@, self@));
        }
        write_manifest(&data, &self.key)
    }
}

/// What the chosen runs hold of a lens, oldest run first. A run that cannot be read holds
/// nothing.
pub open spec fn gathered<V>(
    runs: Seq<RunV<V>>,
    picks: Seq<bool>,
    lens: Seq<char>,
    epoch: u64,
    out: Seq<Layer<V>>,
) -> bool
    decreases runs.len(),
{
    if runs.len() == 0 {
        out.len() == 0
    } else if !picks[runs.len() - 1] || runs.last().body is Err {
        gathered(runs.drop_last(), picks, lens, epoch, out)
    } else {
        exists|stack: Seq<Layer<V>>| #[trigger]
            rebuilt(runs.last().body->Ok_0, lens, epoch, stack) && stack.len() <= out.len()
                && out.skip(out.len() - stack.len()) == stack && gathered(
                runs.drop_last(),
                picks,
                lens,
                epoch,
                out.take(out.len() - stack.len()),
            )
    }
}

/// The error of the first chosen run that cannot be read.
pub open spec fn first_failure<V>(runs: Seq<RunV<V>>, picks: Seq<bool>) -> Option<FormatError>
    decreases runs.len(),
{
    if runs.len() == 0 {
        None
    } else if first_failure(runs.drop_last(), picks) is Some {
        first_failure(runs.drop_last(), picks)
    } else if picks[runs.len() - 1] && runs.last().body is Err {
        Some(runs.last().body->Err_0)
    } else {
        None
    }
}

fn gather<V: Datum>(
    runs: &Vec<RunHandle<V>>,
    picks: &Vec<bool>,
    lens: &str,
    epoch: u64,
) -> (r: Vec<Layer<V>>)
    requires
        picks@.len() == runs@.len(),
    ensures
        gathered(run_views(runs@), picks@, lens@, epoch, r@),
        stack_wf(r@),
{
    let ghost all = run_views(runs@);
    let mut out: Vec<Layer<V>> = Vec::new();
    let mut i: usize = 0;
    assert(all.take(0) =~= Seq::empty());
    while i < runs.len()
        invariant
            i <= runs@.len(),
            picks@.len() == runs@.len(),
            all == run_views(runs@),
            gathered(all.take(i as int), picks@, lens@, epoch, out@),
            stack_wf(out@),
        decreases runs@.len() - i,
    {
        proof {
            assert(all.take(i + 1).drop_last() =~= all.take(i as int));
            assert(all.take(i + 1).last() == runs@[i as int]@);
        }
        if picks[i] {
            if let Ok(body) = &runs[i].body {
                let mut stack = rebuild(body, lens, epoch);
                let ghost before = out@;
                let ghost added = stack@;
                out.append(&mut stack);
                proof {
                    assert(out@ =~= before + added);
                    assert(out@.skip(out@.len() - added.len()) =~= added);
                    assert(out@.take(out@.len() - added.len()) =~= before);
                    assert(rebuilt(all.take(i + 1).last().body->Ok_0, lens@, epoch, added));
                    assert forall|k: int| 0 <= k < out@.len() implies (#[trigger] out@[k]).wf() by {
                        if k >= before.len() {
                            assert(added[k - before.len()].wf());
                        } else {
                            assert(before[k].wf());
                        }
                    }
                }
            }
        }
        i = i + 1;
    }
    assert(all.take(all.len() as int) =~= all);
    out
}

fn failure<V>(runs: &Vec<RunHandle<V>>, picks: &Vec<bool>) -> (r: Option<FormatError>)
    requires
        picks@.len() == runs@.len(),
    ensures
        r == first_failure(run_views(runs@), picks@),
{
    let ghost all = run_views(runs@);
    let mut found: Option<FormatError> = None;
    let mut i: usize = 0;
    assert(all.take(0) =~= Seq::empty());
    while i < runs.len()
        invariant
            i <= runs@.len(),
            picks@.len() == runs@.len(),
            all == run_views(runs@),
            found == first_failure(all.take(i as int), picks@),
        decreases runs@.len() - i,
    {
        proof {
            assert(all.take(i + 1).drop_last() =~= all.take(i as int));
            assert(all.take(i + 1).last() == runs@[i as int]@);
        }
        if found.is_none() && picks[i] {
            if let Err(e) = &runs[i].body {
                found = Some(*e);
            }
        }
        i = i + 1;
    }
    assert(all.take(all.len() as int) =~= all);
    found
}

/// What the runs say of a point, the newest run first. A run that the footer rules out, or
/// that cannot be read, is passed over.
pub open spec fn runs_answer<V>(
    runs: Seq<RunV<V>>,
    lens: Seq<char>,
    epoch: u64,
    ts: Seq<Timestamp>,
    as_of: Option<i64>,
    r: Option<V>,
) -> bool
    decreases runs.len(),
{
    if runs.len() == 0 {
        r is None
    } else if ruled_out(runs.last().footer, lens, ts[0]) || runs.last().body is Err {
        runs_answer(runs.drop_last(), lens, epoch, ts, as_of, r)
    } else {
        exists|stack: Seq<Layer<V>>| #[trigger]
            rebuilt(runs.last().body->Ok_0, lens, epoch, stack) && if newest(
                stack,
                ts,
                as_of,
            ) is Some {
                r == newest(stack, ts, as_of)
            } else {
                runs_answer(runs.drop_last(), lens, epoch, ts, as_of, r)
            }
    }
}

/// What a store says of a point: the stack in memory, or else the runs.
pub open spec fn store_answers<V>(
    v: StoreV<V>,
    lens: Seq<char>,
    ts: Seq<Timestamp>,
    as_of: Option<i64>,
    r: Option<V>,
) -> bool {
    if ts.len() == 0 {
        r is None
    } else if newest(stack_of(v.memtable, lens), ts, as_of) is Some {
        r == newest(stack_of(v.memtable, lens), ts, as_of)
    } else {
        runs_answer(v.runs, lens, v.epoch(lens), ts, as_of, r)
    }
}

/// The footer leaves it open that the run holds something of the lens in a window.
pub open spec fn may_reach<V>(run: RunV<V>, lens: Seq<char>, start: Timestamp, end: Timestamp) -> bool {
    run.footer.contains_key(lens) && {
        let st = run.footer[lens];
        st.count != 0 && st.max_end > start && st.min_start < end
    }
}

/// The runs that may reach into a window.
pub open spec fn reaching<V>(lens: Seq<char>, start: Timestamp, end: Timestamp) -> spec_fn(
    RunV<V>,
) -> bool {
    |run: RunV<V>| may_reach(run, lens, start, end)
}

pub open spec fn every_run<V>() -> spec_fn(RunV<V>) -> bool {
    |run: RunV<V>| true
}

/// One choice for each run.
pub open spec fn chosen<V>(
    runs: Seq<RunV<V>>,
    picks: Seq<bool>,
    pick: spec_fn(RunV<V>) -> bool,
) -> bool {
    picks.len() == runs.len() && forall|i: int|
        0 <= i < runs.len() ==> #[trigger] picks[i] == pick(runs[i])
}

/// What chosen runs hold of a lens, with the stack in memory on top.
pub open spec fn combined<V>(
    v: StoreV<V>,
    lens: Seq<char>,
    pick: spec_fn(RunV<V>) -> bool,
    out: Seq<Layer<V>>,
) -> bool {
    exists|picks: Seq<bool>, below: Seq<Layer<V>>|
        chosen(v.runs, picks, pick) && #[trigger] gathered(
            v.runs,
            picks,
            lens,
            v.epoch(lens),
            below,
        ) && out == below + stack_of(v.memtable, lens)
}

impl<V: Datum> Sstable<V> {
    fn epoch_now(&self, lens: &str) -> (r: u64)
        ensures
            r == self@.epoch(lens@),
    {
        match self.lens_epoch.get(lens) {
            Some(e) => *e,
            None => 0,
        }
    }

    /// The newest-wins value at a valid time.
    pub fn at(&self, lens: &str, t: Timestamp) -> (r: Option<V>)
        requires
            self@.wf(),
        ensures
            store_answers(self@, lens@, seq![t], None, r),
    {
        let point: Vec<Timestamp> = vec![t];
        assert(point@ =~= seq![t]);
        self.get(lens, &point, None)
    }

    /// The newest-wins value at a point, as of a transaction time where one is given.
    pub fn get(&self, lens: &str, coords: &[Timestamp], as_of: Option<i64>) -> (r: Option<V>)
        requires
            self@.wf(),
        ensures
            store_answers(self@, lens@, coords@, as_of, r),
    {
        if coords.len() == 0 {
            return None;
        }
        let t0: Timestamp = coords[0];
        let epoch: u64 = self.epoch_now(lens);
        proof {
            assert(self@.memtable.contains_key(lens@) <==> self.memtable@.contains_key(lens@));
        }
        if let Some(mem) = self.memtable.get(lens) {
            assert(self@.memtable[lens@] == mem@);
            if let Some(v) = layers_get(mem.as_slice(), coords, as_of) {
                return Some(v);
            }
        }
        let ghost all = run_views(self.runs@);
        let mut n: usize = self.runs.len();
        assert(all.take(n as int) =~= all);
        while n > 0
            invariant
                n <= self.runs@.len(),
                all == run_views(self.runs@),
                self@.wf(),
                coords@.len() > 0,
                t0 == coords@[0],
                epoch == self@.epoch(lens@),
                newest(stack_of(self@.memtable, lens@), coords@, as_of) is None,
                forall|r: Option<V>| #[trigger]
                    runs_answer(all.take(n as int), lens@, epoch, coords@, as_of, r)
                        ==> runs_answer(all, lens@, epoch, coords@, as_of, r),
            decreases n,
        {
            let run = &self.runs[n - 1];
            proof {
                assert(all.take(n as int).drop_last() =~= all.take(n - 1));
                assert(all.take(n as int).last() == run@);
                assert(self@.runs[n - 1] == run@);
                assert(filters_wf(self@.runs[n - 1].footer));
            }
            if may_hold(&run.stats, lens, t0) {
                if let Ok(body) = &run.body {
                    let stack = rebuild(body, lens, epoch);
                    assert(rebuilt(all.take(n as int).last().body->Ok_0, lens@, epoch, stack@));
                    if let Some(v) = layers_get(stack.as_slice(), coords, as_of) {
                        assert(runs_answer(
                            all.take(n as int),
                            lens@,
                            epoch,
                            coords@,
                            as_of,
                            Some(v),
                        ));
                        return Some(v);
                    }
                    assert forall|r: Option<V>| #[trigger]
                        runs_answer(all.take(n - 1), lens@, epoch, coords@, as_of, r) implies runs_answer(
                        all,
                        lens@,
                        epoch,
                        coords@,
                        as_of,
                        r,
                    ) by {
                        assert(runs_answer(all.take(n as int), lens@, epoch, coords@, as_of, r));
                    }
                }
            }
            assert forall|r: Option<V>| #[trigger]
                runs_answer(all.take(n - 1), lens@, epoch, coords@, as_of, r) implies runs_answer(
                all,
                lens@,
                epoch,
                coords@,
                as_of,
                r,
            ) by {
                if ruled_out(run@.footer, lens@, t0) || run@.body is Err {
                    assert(runs_answer(all.take(n as int), lens@, epoch, coords@, as_of, r));
                }
            }
            n = n - 1;
        }
        assert(runs_answer(all.take(0), lens@, epoch, coords@, as_of, None::<V>));
        None
    }

    fn with_memory(&self, lens: &str, below: Vec<Layer<V>>) -> (r: Vec<Layer<V>>)
        requires
            self@.wf(),
            stack_wf(below@),
        ensures
            r@ == below@ + stack_of(self@.memtable, lens@),
            stack_wf(r@),
    {
        let mut out = below;
        proof {
            assert(self@.memtable.contains_key(lens@) <==> self.memtable@.contains_key(lens@));
        }
        match self.memtable.get(lens) {
            Some(mem) => {
                let ghost base = below@;
                assert(self@.memtable[lens@] == mem@);
                let mut i: usize = 0;
                while i < mem.len()
                    invariant
                        i <= mem@.len(),
                        out@ =~= base + mem@.take(i as int),
                    decreases mem@.len() - i,
                {
                    out.push(mem[i].clone());
                    i = i + 1;
                }
                assert(mem@.take(mem@.len() as int) =~= mem@);
                assert forall|k: int| 0 <= k < out@.len() implies (#[trigger] out@[k]).wf() by {
                    if k >= base.len() {
                        assert(mem@[k - base.len()].wf());
                    } else {
                        assert(base[k].wf());
                    }
                }
            },
            None => {
                assert(out@ =~= below@ + stack_of(self@.memtable, lens@));
            },
        }
        out
    }

    /// The newest-wins values over a window of valid time, the other axes held at `fixed`.
    pub fn scan(
        &self,
        lens: &str,
        start: Timestamp,
        end: Timestamp,
        fixed: &[Timestamp],
        as_of: Option<i64>,
    ) -> (r: Vec<Segment<V>>)
        requires
            self@.wf(),
        ensures
            start >= end ==> r@.len() == 0,
            start < end ==> exists|stack: Seq<Layer<V>>| #[trigger]
                combined(self@, lens@, reaching(lens@, start, end), stack) && traces(
                    r@,
                    probe(stack, fixed@, as_of),
                    start as int,
                    end as int,
                ),
    {
        if start >= end {
            return Vec::new();
        }
        let ghost pick = reaching::<V>(lens@, start, end);
        let mut picks: Vec<bool> = Vec::new();
        let mut i: usize = 0;
        while i < self.runs.len()
            invariant
                i <= self.runs@.len(),
                picks@.len() == i,
                pick == reaching::<V>(lens@, start, end),
                forall|k: int| 0 <= k < i ==> #[trigger] picks@[k] == pick(self.runs@[k]@),
            decreases self.runs@.len() - i,
        {
            let run = &self.runs[i];
            let may: bool = match run.stats.get(lens) {
                Some(st) => {
                    assert(run@.footer[lens@] == st@);
                    st.count != 0 && st.max_end > start && st.min_start < end
                },
                None => false,
            };
            assert(run@.footer.contains_key(lens@) <==> run.stats@.contains_key(lens@));
            picks.push(may);
            i = i + 1;
        }
        let below = gather(&self.runs, &picks, lens, self.epoch_now(lens));
        let ghost low = below@;
        let stack = self.with_memory(lens, below);
        proof {
            assert(chosen(self@.runs, picks@, pick));
            assert(gathered(self@.runs, picks@, lens@, self@.epoch(lens@), low));
            assert(combined(self@, lens@, pick, stack@));
        }
        scan_layers(stack.as_slice(), start, end, fixed, as_of)
    }

    /// All layers of a lens, those of the runs below those in memory; `None` where nothing
    /// was appended to it since it was last dropped.
    pub fn layers(&self, lens: &str) -> (r: Option<Vec<Layer<V>>>)
        requires
            self@.wf(),
        ensures
            r is Some <==> self@.live.contains_key(lens@),
            r matches Some(stack) ==> combined(self@, lens@, every_run(), stack@)
                && stack_wf(stack@),
    {
        if !self.live_lenses.contains_key(lens) {
            return None;
        }
        let ghost pick = every_run::<V>();
        let mut picks: Vec<bool> = Vec::new();
        let mut i: usize = 0;
        while i < self.runs.len()
            invariant
                i <= self.runs@.len(),
                picks@.len() == i,
                forall|k: int| 0 <= k < i ==> #[trigger] picks@[k],
            decreases self.runs@.len() - i,
        {
            picks.push(true);
            i = i + 1;
        }
        let below = gather(&self.runs, &picks, lens, self.epoch_now(lens));
        let ghost low = below@;
        let stack = self.with_memory(lens, below);
        proof {
            assert(chosen(self@.runs, picks@, pick));
            assert(gathered(self@.runs, picks@, lens@, self@.epoch(lens@), low));
            assert(combined(self@, lens@, pick, stack@));
        }
        Some(stack)
    }
}

/// Layers are ordered by when they were written, and then by id.
impl<V> Rank for Layer<V> {
    open spec fn at_most(&self, other: &Self) -> bool {
        self.written_at < other.written_at || (self.written_at == other.written_at && self.id
            <= other.id)
    }

    fn le(&self, other: &Self) -> (b: bool) {
        self.written_at < other.written_at || (self.written_at == other.written_at && self.id
            <= other.id)
    }

    proof fn total(a: Self, b: Self) {
    }

    proof fn transitive(a: Self, b: Self, c: Self) {
    }
}

/// The runs that hold something of the lens and were not yet taken back into memory.
pub open spec fn pending<V>(v: StoreV<V>, lens: Seq<char>) -> spec_fn(RunV<V>) -> bool {
    |run: RunV<V>| run.footer.contains_key(lens) && !v.has_absorbed(lens, run.id)
}

pub open spec fn some_pick(picks: Seq<bool>) -> bool {
    exists|i: int| 0 <= i < picks.len() && #[trigger] picks[i]
}

/// `out` is the layers in the order of their generations, compacted.
pub open spec fn settled<V: Datum>(
    layers: Seq<Layer<V>>,
    sorted: Seq<Layer<V>>,
    out: Seq<Layer<V>>,
) -> bool {
    rearranged(layers, sorted) && ascending(sorted) && compacted(sorted, out)
}

/// A lens compacted: what the pending runs hold of it is taken back into memory.
pub open spec fn consolidation<V: Datum>(
    v: StoreV<V>,
    lens: Seq<char>,
    picks: Seq<bool>,
    below: Seq<Layer<V>>,
    sorted: Seq<Layer<V>>,
    after: StoreV<V>,
) -> bool {
    &&& chosen(v.runs, picks, pending(v, lens))
    &&& first_failure(v.runs, picks) is None
    &&& gathered(v.runs, picks, lens, v.epoch(lens), below)
    &&& settled(below + stack_of(v.memtable, lens), sorted, stack_of(after.memtable, lens))
    &&& after == (StoreV {
        memtable: v.memtable.insert(lens, stack_of(after.memtable, lens)),
        layer_count: v.layer_count.insert(lens, stack_of(after.memtable, lens).len() as usize),
        epochs: if some_pick(picks) {
            v.epochs.insert(lens, v.epoch(lens).wrapping_add(1))
        } else {
            v.epochs
        },
        absorbed: after.absorbed,
        ..v
    })
    &&& forall|l: Seq<char>, id: u64| #[trigger]
        after.has_absorbed(l, id) <==> if l != lens || v.runs.len() == 0 {
            v.has_absorbed(l, id)
        } else {
            exists|i: int|
                0 <= i < v.runs.len() && (#[trigger] v.runs[i]).id == id && (v.has_absorbed(l, id)
                    || picks[i])
        }
}

pub open spec fn consolidated<V: Datum>(v: StoreV<V>, lens: Seq<char>, after: StoreV<V>) -> bool {
    exists|picks: Seq<bool>, below: Seq<Layer<V>>, sorted: Seq<Layer<V>>| #[trigger]
        consolidation(v, lens, picks, below, sorted, after)
}

/// A run that compaction of the lens needs cannot be read.
pub open spec fn unreadable<V>(v: StoreV<V>, lens: Seq<char>, e: FormatError) -> bool {
    exists|picks: Seq<bool>| #[trigger]
        chosen(v.runs, picks, pending(v, lens)) && first_failure(v.runs, picks) == Some(e)
}

fn holds_id(ids: &Vec<u64>, id: u64) -> (r: bool)
    ensures
        r == ids@.contains(id),
{
    let mut i: usize = 0;
    while i < ids.len()
        invariant
            i <= ids@.len(),
            forall|k: int| 0 <= k < i ==> ids@[k] != id,
        decreases ids@.len() - i,
    {
        if ids[i] == id {
            assert(ids@[i as int] == id);
            return true;
        }
        i = i + 1;
    }
    false
}

fn settle<V: Datum>(layers: Vec<Layer<V>>) -> (r: Vec<Layer<V>>)
    requires
        stack_wf(layers@),
    ensures
        exists|sorted: Seq<Layer<V>>| #[trigger] settled(layers@, sorted, r@),
        stack_wf(r@),
{
    let mut stack = layers;
    sort_in_place(&mut stack);
    let ghost sorted = stack@;
    proof {
        let (from, to) = choose|from: Seq<int>, to: Seq<int>| linked(layers@, sorted, from, to);
        assert forall|k: int| 0 <= k < sorted.len() implies (#[trigger] sorted[k]).wf() by {
            assert(sorted[k] == layers@[from[k]]);
            assert(layers@[from[k]].wf());
        }
    }
    compact_layers(&mut stack);
    assert(settled(layers@, sorted, stack@));
    stack
}

impl<V: Datum> Sstable<V> {
    fn absorbs(&self, lens: &str, id: u64) -> (r: bool)
        ensures
            r == self@.has_absorbed(lens@, id),
    {
        assert(self@.absorbed.contains_key(lens@) <==> self.absorbed@.contains_key(lens@));
        match self.absorbed.get(lens) {
            Some(ids) => {
                assert(self@.absorbed[lens@] == ids@);
                holds_id(ids, id)
            },
            None => false,
        }
    }

    fn pending_runs(&self, lens: &str) -> (r: Vec<bool>)
        ensures
            chosen(self@.runs, r@, pending(self@, lens@)),
    {
        let ghost pick = pending(self@, lens@);
        let mut picks: Vec<bool> = Vec::new();
        let mut i: usize = 0;
        while i < self.runs.len()
            invariant
                i <= self.runs@.len(),
                picks@.len() == i,
                pick == pending(self@, lens@),
                forall|k: int| 0 <= k < i ==> #[trigger] picks@[k] == pick(self@.runs[k]),
            decreases self.runs@.len() - i,
        {
            let run = &self.runs[i];
            proof {
                assert(self@.runs[i as int] == run@);
                assert(run@.footer.contains_key(lens@) <==> run.stats@.contains_key(lens@));
            }
            let wanted: bool = run.stats.contains_key(lens) && !self.absorbs(lens, run.id);
            picks.push(wanted);
            i = i + 1;
        }
        picks
    }

    /// The runs that are absorbed once the chosen ones are, and whether some run is chosen.
    fn absorbed_with(&self, lens: &str, picks: &Vec<bool>) -> (r: (Vec<u64>, bool))
        requires
            picks@.len() == self.runs@.len(),
        ensures
            r.1 == some_pick(picks@),
            forall|id: u64| #[trigger]
                r.0@.contains(id) <==> exists|i: int|
                    0 <= i < self@.runs.len() && (#[trigger] self@.runs[i]).id == id && (
                    self@.has_absorbed(lens@, id) || picks@[i]),
    {
        let mut ids: Vec<u64> = Vec::new();
        let mut any: bool = false;
        let mut i: usize = 0;
        while i < self.runs.len()
            invariant
                i <= self.runs@.len(),
                picks@.len() == self.runs@.len(),
                any <==> exists|k: int| 0 <= k < i && #[trigger] picks@[k],
                forall|id: u64| #[trigger]
                    ids@.contains(id) <==> exists|k: int|
                        0 <= k < i && (#[trigger] self@.runs[k]).id == id && (self@.has_absorbed(
                            lens@,
                            id,
                        ) || picks@[k]),
            decreases self.runs@.len() - i,
        {
            let id: u64 = self.runs[i].id;
            let ghost before = ids@;
            assert(self@.runs[i as int].id == id);
            if picks[i] {
                any = true;
            }
            if picks[i] || self.absorbs(lens, id) {
                ids.push(id);
                assert(ids@[before.len() as int] == id);
            }
            proof {
                assert forall|x: u64| #[trigger] ids@.contains(x) <==> exists|k: int|
                    0 <= k < i + 1 && (#[trigger] self@.runs[k]).id == x && (self@.has_absorbed(
                        lens@,
                        x,
                    ) || picks@[k]) by {
                    if ids@.contains(x) {
                        let p = choose|p: int| 0 <= p < ids@.len() && ids@[p] == x;
                        if p < before.len() {
                            assert(before[p] == x);
                            assert(before.contains(x));
                            let k = choose|k: int|
                                0 <= k < i && (#[trigger] self@.runs[k]).id == x && (
                                self@.has_absorbed(lens@, x) || picks@[k]);
                            assert(0 <= k < i + 1 && self@.runs[k].id == x);
                        }
                    }
                    if exists|k: int|
                        0 <= k < i + 1 && (#[trigger] self@.runs[k]).id == x && (self@.has_absorbed(
                            lens@,
                            x,
                        ) || picks@[k]) {
                        let k = choose|k: int|
                            0 <= k < i + 1 && (#[trigger] self@.runs[k]).id == x && (
                            self@.has_absorbed(lens@, x) || picks@[k]);
                        if k < i {
                            assert(before.contains(x));
                            let p = choose|p: int| 0 <= p < before.len() && before[p] == x;
                            assert(ids@[p] == x);
                        }
                    }
                }
            }
            i = i + 1;
        }
        (ids, any)
    }

    /// Compacts a lens, in memory and in the runs. The manifest is to be written.
    fn consolidate_lens(&mut self, lens: &str) -> (r: Result<Vec<u8>, FormatError>)
        requires
            old(self)@.wf(),
        ensures
            same_settings(&*old(self), &*final(self)),
            final(self)@.wf(),
            match r {
                Ok(file) => consolidated(old(self)@, lens@, final(self)@) && manifest_file(
                    file@,
                    final(self)@,
                    key_bytes(final(self).key),
                ),
                Err(e) => {
                    ||| unreadable(old(self)@, lens@, e) && final(self)@ == old(self)@
                    ||| consolidated(old(self)@, lens@, final(self)@) && manifest_refused(
                        e,
                        final(self)@,
                        final(self).key,
                    )
                },
            },
    {
        let ghost v = self@;
        let picks = self.pending_runs(lens);
        if let Some(e) = failure(&self.runs, &picks) {
            assert(chosen(v.runs, picks@, pending(v, lens@)));
            return Err(e);
        }
        let epoch: u64 = self.epoch_now(lens);
        let below = gather(&self.runs, &picks, lens, epoch);
        let ghost low = below@;
        let layers = self.with_memory(lens, below);
        let ghost whole = layers@;
        let stack = settle(layers);
        let ghost sorted = choose|sorted: Seq<Layer<V>>| #[trigger] settled(whole, sorted, stack@);
        let (ids, any) = self.absorbed_with(lens, &picks);
        if self.runs.len() > 0 {
            self.absorbed.insert(lens, ids);
        }
        if any {
            self.lens_epoch.insert(lens, epoch.wrapping_add(1));
        }
        self.layer_count.insert(lens, stack.len());
        let ghost top = stack@;
        self.memtable.insert(lens, stack);
        proof {
            assert(self@.memtable =~= v.memtable.insert(lens@, top));
            assert(stack_of(self@.memtable, lens@) == top);
            assert forall|l: Seq<char>, id: u64| #[trigger]
                self@.has_absorbed(l, id) <==> if l != lens@ || v.runs.len() == 0 {
                    v.has_absorbed(l, id)
                } else {
                    exists|i: int|
                        0 <= i < v.runs.len() && (#[trigger] v.runs[i]).id == id
                            && (v.has_absorbed(l, id) || picks@[i])
                } by {
                if l == lens@ && v.runs.len() > 0 {
                    assert(self@.absorbed[l] == ids@);
                } else if v.runs.len() > 0 {
                    assert(self@.absorbed.contains_key(l) <==> v.absorbed.contains_key(l));
                }
            }
            assert(consolidation(v, lens@, picks@, low, sorted, self@));
        }
        self.manifest()
    }
}

/// One more, unless that is too many to count.
pub open spec fn one_up(n: usize) -> usize {
    if n < usize::MAX {
        (n + 1) as usize
    } else {
        n
    }
}

/// The layer on top of the stack in memory.
pub open spec fn topped<V>(v: StoreV<V>, lens: Seq<char>, layer: Layer<V>) -> StoreV<V> {
    StoreV {
        memtable: v.memtable.insert(lens, stack_of(v.memtable, lens).push(layer)),
        layer_count: v.layer_count.insert(lens, one_up(v.count(lens))),
        ..v
    }
}

pub open spec fn with_live<V>(v: StoreV<V>, lens: Seq<char>) -> StoreV<V> {
    StoreV { live: v.live.insert(lens, ()), ..v }
}

/// What an append does.
pub open spec fn append_done<V: Datum>(
    v: StoreV<V>,
    lens: Seq<char>,
    layer: Layer<V>,
    threshold: nat,
    key: Option<[u8; 32]>,
    r: Result<(bool, Option<Vec<u8>>), FormatError>,
    after: StoreV<V>,
) -> bool {
    let up = topped(v, lens, layer);
    if threshold > 0 && up.count(lens) > threshold {
        match r {
            Ok((shorter, file)) => exists|mid: StoreV<V>| #[trigger]
                consolidated(up, lens, mid) && after == with_live(mid, lens) && shorter == (
                mid.count(lens) < up.count(lens)) && file is Some && manifest_file(
                    file->Some_0@,
                    mid,
                    key_bytes(key),
                ),
            Err(e) => {
                ||| unreadable(up, lens, e) && after == up
                ||| consolidated(up, lens, after) && manifest_refused(e, after, key)
            },
        }
    } else {
        r matches Ok((shorter, file)) && !shorter && file is None && after == with_live(up, lens)
    }
}

impl<V: Datum> Sstable<V> {
    /// Puts a layer on top of a lens's stack, compacting the lens where its layers, in
    /// memory and in all runs, have become more than the threshold. Tells whether that left
    /// fewer of them, and what the manifest is to hold, where it is to be written.
    pub fn append(&mut self, lens: &str, layer: Layer<V>) -> (r: Result<
        (bool, Option<Vec<u8>>),
        FormatError,
    >)
        requires
            old(self)@.wf(),
            layer.wf(),
        ensures
            final(self)@.wf(),
            same_settings(&*old(self), &*final(self)),
            append_done(
                old(self)@,
                lens@,
                layer,
                old(self).limits().of(lens@),
                old(self).key,
                r,
                final(self)@,
            ),
    {
        let ghost v = self@;
        let mut mem = self.with_memory(lens, Vec::new());
        assert(mem@ =~= stack_of(v.memtable, lens@));
        mem.push(layer);
        let ghost top = mem@;
        self.memtable.insert(lens, mem);
        let counted: usize = match self.layer_count.get(lens) {
            Some(n) => *n,
            None => 0,
        };
        let before: usize = if counted < usize::MAX {
            counted + 1
        } else {
            counted
        };
        self.layer_count.insert(lens, before);
        let ghost up = topped(v, lens@, layer);
        proof {
            assert(self@.memtable =~= v.memtable.insert(lens@, top));
            assert(self@ =~= up);
            assert(stack_wf(top));
        }
        let effective: usize = match self.lens_compact.get(lens) {
            Some(n) => *n,
            None => self.compact_threshold,
        };
        let mut shorter: bool = false;
        let mut written: Option<Vec<u8>> = None;
        if effective > 0 && before > effective {
            match self.consolidate_lens(lens) {
                Ok(file) => {
                    written = Some(file);
                },
                Err(e) => {
                    return Err(e);
                },
            }
            let after: usize = match self.layer_count.get(lens) {
                Some(n) => *n,
                None => 0,
            };
            shorter = after < before;
        }
        let ghost mid = self@;
        self.live_lenses.insert(lens, ());
        assert(self@ =~= with_live(mid, lens@));
        Ok((shorter, written))
    }

    /// Forgets a lens: what the runs hold of it is dead from now on. Gives what the manifest
    /// is to hold.
    pub fn drop_lens(&mut self, lens: &str) -> (r: Result<Vec<u8>, FormatError>)
        requires
            old(self)@.wf(),
        ensures
            final(self)@.wf(),
            final(self).key == old(self).key,
            final(self).compression_level == old(self).compression_level,
            final(self).run_gc_threshold == old(self).run_gc_threshold,
            final(self).limits() == (Limits {
                own: old(self).limits().own.remove(lens@),
                ..old(self).limits()
            }),
            final(self)@ == dropped(old(self)@, lens@),
            match r {
                Ok(file) => manifest_file(file@, final(self)@, key_bytes(final(self).key)),
                Err(e) => manifest_refused(e, final(self)@, final(self).key),
            },
    {
        let ghost v = self@;
        let epoch: u64 = self.epoch_now(lens);
        let _ = self.memtable.remove(lens);
        let _ = self.live_lenses.remove(lens);
        let _ = self.layer_count.remove(lens);
        let _ = self.lens_compact.remove(lens);
        self.lens_epoch.insert(lens, epoch.wrapping_add(1));
        proof {
            assert(self@.memtable =~= v.memtable.remove(lens@));
            assert(self@ =~= dropped(v, lens@));
        }
        self.manifest()
    }

    /// The lenses to which something was appended since they were last dropped.
    pub fn lens_names(&self) -> (r: Vec<String>)
        ensures
            lists_keys(r@, self@.live),
    {
        self.live_lenses.names()
    }

    /// Notes a declaration. Gives what the manifest is to hold.
    pub fn append_schema(&mut self, stmt: &str) -> (r: Result<Vec<u8>, FormatError>)
        ensures
            same_settings(&*old(self), &*final(self)),
            final(self)@ == (StoreV { schema: old(self)@.schema.push(stmt@), ..old(self)@ }),
            match r {
                Ok(file) => manifest_file(file@, final(self)@, key_bytes(final(self).key)),
                Err(e) => manifest_refused(e, final(self)@, final(self).key),
            },
    {
        let ghost v = self@;
        self.schema.push(crate::text::owned(stmt));
        proof {
            assert(self@.schema =~= v.schema.push(stmt@));
            assert(self@ =~= (StoreV { schema: v.schema.push(stmt@), ..v }));
        }
        self.manifest()
    }

    /// The declarations, in order.
    pub fn schema_stmts(&self) -> (r: Vec<String>)
        ensures
            texts_of(r@) == self@.schema,
    {
        copy_texts(&self.schema)
    }

    pub fn set_compact_threshold(&mut self, n: usize)
        ensures
            final(self)@ == old(self)@,
            final(self).limits() == (Limits { general: n, ..old(self).limits() }),
            final(self).key == old(self).key,
            final(self).compression_level == old(self).compression_level,
            final(self).run_gc_threshold == old(self).run_gc_threshold,
    {
        self.compact_threshold = n;
    }

    pub fn set_run_gc_threshold(&mut self, n: usize)
        ensures
            final(self)@ == old(self)@,
            final(self).limits() == old(self).limits(),
            final(self).key == old(self).key,
            final(self).compression_level == old(self).compression_level,
            final(self).run_gc_threshold == n,
    {
        self.run_gc_threshold = n;
    }

    pub fn set_compression_level(&mut self, level: i32)
        ensures
            final(self)@ == old(self)@,
            final(self).limits() == old(self).limits(),
            final(self).key == old(self).key,
            final(self).compression_level == level,
            final(self).run_gc_threshold == old(self).run_gc_threshold,
    {
        self.compression_level = level;
    }

    /// Sets the threshold of one lens, or has it follow the store's.
    pub fn set_lens_compact_threshold(&mut self, lens: &str, threshold: Option<usize>)
        ensures
            final(self)@ == old(self)@,
            final(self).limits() == (Limits {
                own: match threshold {
                    Some(n) => old(self).limits().own.insert(lens@, n),
                    None => old(self).limits().own.remove(lens@),
                },
                ..old(self).limits()
            }),
            final(self).key == old(self).key,
            final(self).compression_level == old(self).compression_level,
            final(self).run_gc_threshold == old(self).run_gc_threshold,
    {
        match threshold {
            Some(n) => self.lens_compact.insert(lens, n),
            None => {
                let _ = self.lens_compact.remove(lens);
            },
        }
    }
}

/// A lens forgotten.
pub open spec fn dropped<V>(v: StoreV<V>, lens: Seq<char>) -> StoreV<V> {
    StoreV {
        memtable: v.memtable.remove(lens),
        live: v.live.remove(lens),
        layer_count: v.layer_count.remove(lens),
        epochs: v.epochs.insert(lens, v.epoch(lens).wrapping_add(1)),
        ..v
    }
}

/// A new run of the entries, on top of the others.
pub open spec fn with_run<V>(
    v: StoreV<V>,
    runs: Seq<RunV<V>>,
    footer: FooterV,
    entries: Seq<RunEntry<V>>,
) -> StoreV<V> {
    StoreV {
        runs: runs.push(RunV { id: v.next_run_id, footer, body: Ok(entries) }),
        next_run_id: v.next_run_id.wrapping_add(1),
        ..v
    }
}

/// The action writes a run of the entries.
pub open spec fn writes_run<V: Codec>(
    action: FileAction,
    id: u64,
    entries: Seq<RunEntry<V>>,
    key: Option<Seq<u8>>,
    level: i32,
    footer: FooterV,
) -> bool {
    action matches FileAction::Run { id: named, bytes } && named == id && is_run_file::<V>(
        bytes@,
        entry_views(entries),
        key,
        level,
        footer,
    )
}

/// The stacks in memory moved into a run, where they hold anything.
pub open spec fn flushed<V: Codec>(
    v: StoreV<V>,
    key: Option<Seq<u8>>,
    level: i32,
    entries: Seq<RunEntry<V>>,
    footer: FooterV,
    acts: Seq<FileAction>,
    after: StoreV<V>,
) -> bool {
    let emptied = StoreV { memtable: Map::empty(), ..v };
    &&& flattened(entries, v.memtable, v.epochs)
    &&& if entries.len() == 0 {
        acts.len() == 0 && after == emptied
    } else {
        &&& acts.len() == 1
        &&& writes_run::<V>(acts[0], v.next_run_id, entries, key, level, footer)
        &&& after == with_run(emptied, v.runs, footer, entries)
    }
}

pub open spec fn was_flushed<V: Codec>(
    v: StoreV<V>,
    key: Option<Seq<u8>>,
    level: i32,
    acts: Seq<FileAction>,
    after: StoreV<V>,
) -> bool {
    exists|entries: Seq<RunEntry<V>>, footer: FooterV| #[trigger]
        flushed::<V>(v, key, level, entries, footer, acts, after)
}

/// Some run has the lens in its footer.
pub open spec fn in_some_run<V>(runs: Seq<RunV<V>>, lens: Seq<char>) -> bool {
    exists|i: int| 0 <= i < runs.len() && (#[trigger] runs[i]).footer.contains_key(lens)
}

/// The runs that have the lens in their footer.
pub open spec fn having<V>(lens: Seq<char>) -> spec_fn(RunV<V>) -> bool {
    |run: RunV<V>| run.footer.contains_key(lens)
}

/// What all runs hold of a lens, compacted.
pub open spec fn merged_lens<V: Datum>(
    v: StoreV<V>,
    lens: Seq<char>,
    picks: Seq<bool>,
    below: Seq<Layer<V>>,
    sorted: Seq<Layer<V>>,
    out: Seq<Layer<V>>,
) -> bool {
    &&& chosen(v.runs, picks, having(lens))
    &&& first_failure(v.runs, picks) is None
    &&& gathered(v.runs, picks, lens, v.epoch(lens), below)
    &&& settled(below, sorted, out)
}

pub open spec fn lens_merged<V: Datum>(
    v: StoreV<V>,
    lens: Seq<char>,
    out: Seq<Layer<V>>,
) -> bool {
    exists|picks: Seq<bool>, below: Seq<Layer<V>>, sorted: Seq<Layer<V>>| #[trigger]
        merged_lens(v, lens, picks, below, sorted, out)
}

/// What all runs hold, compacted lens by lens.
pub open spec fn merged_stacks<V: Datum>(v: StoreV<V>, stacks: Stacks<V>) -> bool {
    &&& forall|lens: Seq<char>| #[trigger]
        stacks.contains_key(lens) <==> in_some_run(v.runs, lens)
    &&& forall|lens: Seq<char>| #[trigger]
        stacks.contains_key(lens) ==> lens_merged(v, lens, stacks[lens])
}

/// All runs merged into one, or into none where nothing in them is alive.
pub open spec fn collected<V: Codec>(
    v: StoreV<V>,
    key: Option<Seq<u8>>,
    level: i32,
    stacks: Stacks<V>,
    entries: Seq<RunEntry<V>>,
    footer: FooterV,
    acts: Seq<FileAction>,
    after: StoreV<V>,
) -> bool {
    let n: int = if entries.len() == 0 {
        0
    } else {
        1
    };
    &&& merged_stacks(v, stacks)
    &&& flattened(entries, stacks, v.epochs)
    &&& if entries.len() == 0 {
        after == (StoreV { runs: Seq::empty(), ..v })
    } else {
        acts.len() > 0 && writes_run::<V>(acts[0], v.next_run_id, entries, key, level, footer)
            && after == with_run(v, Seq::empty(), footer, entries)
    }
    &&& acts.len() == n + 1 + v.runs.len()
    &&& acts[n] matches FileAction::Manifest(file) && manifest_file(file@, after, key)
    &&& forall|i: int|
        0 <= i < v.runs.len() ==> #[trigger] acts[n + 1 + i] == (FileAction::RemoveRun {
            id: v.runs[i].id,
        })
}

pub open spec fn was_collected<V: Codec>(
    v: StoreV<V>,
    key: Option<Seq<u8>>,
    level: i32,
    acts: Seq<FileAction>,
    after: StoreV<V>,
) -> bool {
    exists|stacks: Stacks<V>, entries: Seq<RunEntry<V>>, footer: FooterV| #[trigger]
        collected::<V>(v, key, level, stacks, entries, footer, acts, after)
}

pub proof fn lemma_flat_sound<V: Codec>(
    entries: Seq<RunEntry<V>>,
    stacks: Stacks<V>,
    epochs: Map<Seq<char>, u64>,
)
    requires
        flattened(entries, stacks, epochs),
        stacks_wf(stacks),
    ensures
        entries_sound(entry_views(entries)),
{
    let origins = choose|origins: Seq<crate::flatten::Origin>| #[trigger]
        crate::flatten::comes_from(entries, stacks, epochs, origins);
    let es = entry_views(entries);
    assert forall|i: int| 0 <= i < es.len() implies (#[trigger] es[i]).coords.len() > 0
        && es[i].coords[0].lo < es[i].coords[0].hi by {
        let o = origins[i];
        assert(crate::flatten::entry_says(entries[i], stacks, epochs, o));
        assert(stack_wf(stacks[o.0]));
        let layer = stacks[o.0][o.1];
        assert(layer.wf());
        assert(layer.taus@[o.2].wf());
    }
}

impl<V: Codec> Sstable<V> {
    /// Moves the stacks in memory into a new run.
    fn flush_memtable_to_run(&mut self) -> (r: Result<Vec<FileAction>, FormatError>)
        requires
            old(self)@.wf(),
        ensures
            final(self)@.wf(),
            same_settings(&*old(self), &*final(self)),
            match r {
                Ok(acts) => was_flushed::<V>(
                    old(self)@,
                    key_bytes(old(self).key),
                    old(self).compression_level,
                    acts@,
                    final(self)@,
                ),
                Err(e) => flush_failed::<V>(
                    old(self)@,
                    key_bytes(old(self).key),
                    old(self).compression_level,
                    e,
                    final(self)@,
                ),
            },
    {
        let ghost v = self@;
        let mut acts: Vec<FileAction> = Vec::new();
        let entries = flatten(&self.memtable, &self.lens_epoch);
        let ghost es = entries@;
        proof {
            lemma_flat_sound(es, v.memtable, v.epochs);
        }
        let ghost mut told: FooterV = Map::empty();
        if entries.len() > 0 {
            let id: u64 = self.next_run_id;
            self.next_run_id = id.wrapping_add(1);
            let (bytes, stats) = match write_run(&entries, &self.key, self.compression_level) {
                Ok(x) => x,
                Err(e) => {
                    assert(self@ =~= (StoreV { next_run_id: v.next_run_id.wrapping_add(1), ..v }));
                    return Err(e);
                },
            };
            proof {
                told = footer_view(stats@);
            }
            acts.push(FileAction::Run { id, bytes });
            let ghost before = self.runs@;
            self.runs.push(RunHandle { id, stats, body: Ok(entries) });
            proof {
                assert(run_views(self.runs@) =~= run_views(before).push(
                    RunV { id, footer: told, body: Ok(es) },
                ));
            }
        }
        self.memtable = NameMap::new();
        proof {
            assert(self@.memtable =~= Map::empty());
            let emptied = StoreV { memtable: Map::empty(), ..v };
            if es.len() == 0 {
                assert(self@ =~= emptied);
            } else {
                assert(self@ =~= with_run(emptied, v.runs, told, es));
            }
            assert(flushed::<V>(
                v,
                key_bytes(self.key),
                self.compression_level,
                es,
                told,
                acts@,
                self@,
            ));
            assert forall|i: int| 0 <= i < self@.runs.len() implies filters_wf(
                (#[trigger] self@.runs[i]).footer,
            ) by {
                if i < v.runs.len() {
                    assert(self@.runs[i] == v.runs[i]);
                }
            }
        }
        Ok(acts)
    }

    /// The lenses of all runs.
    fn run_lenses(&self) -> (r: Vec<String>)
        ensures
            forall|lens: Seq<char>| #[trigger] listed(r@, lens) <==> in_some_run(self@.runs, lens),
    {
        let mut found: NameMap<()> = NameMap::new();
        let mut i: usize = 0;
        while i < self.runs.len()
            invariant
                i <= self.runs@.len(),
                forall|lens: Seq<char>| #[trigger]
                    found@.contains_key(lens) <==> in_some_run(self@.runs.take(i as int), lens),
            decreases self.runs@.len() - i,
        {
            let names = self.runs[i].stats.names();
            let ghost before = found@;
            let mut k: usize = 0;
            while k < names.len()
                invariant
                    k <= names@.len(),
                    forall|lens: Seq<char>| #[trigger]
                        found@.contains_key(lens) <==> before.contains_key(lens) || exists|x: int|
                            0 <= x < k && (#[trigger] names@[x])@ == lens,
                decreases names@.len() - k,
            {
                let ghost so = found@;
                found.insert(names[k].as_str(), ());
                proof {
                    assert forall|lens: Seq<char>| #[trigger] found@.contains_key(lens)
                        <==> before.contains_key(lens) || exists|x: int|
                        0 <= x < k + 1 && (#[trigger] names@[x])@ == lens by {
                        if found@.contains_key(lens) {
                            if lens == names@[k as int]@ {
                                assert(0 <= k < k + 1 && names@[k as int]@ == lens);
                            } else {
                                assert(so.contains_key(lens));
                            }
                        }
                        if exists|x: int| 0 <= x < k + 1 && (#[trigger] names@[x])@ == lens {
                            let x = choose|x: int| 0 <= x < k + 1 && (#[trigger] names@[x])@ == lens;
                            if x < k {
                                assert(so.contains_key(lens));
                            }
                        }
                    }
                }
                k = k + 1;
            }
            proof {
                let some = self@.runs.take(i as int);
                let more = self@.runs.take(i + 1);
                let run = self.runs@[i as int]@;
                assert forall|lens: Seq<char>| #[trigger] found@.contains_key(lens)
                    <==> in_some_run(more, lens) by {
                    assert(run.footer.contains_key(lens) <==> self.runs@[i as int].stats@.contains_key(
                        lens,
                    ));
                    if in_some_run(more, lens) {
                        let x = choose|x: int|
                            0 <= x < more.len() && (#[trigger] more[x]).footer.contains_key(lens);
                        if x < i {
                            assert(some[x].footer.contains_key(lens));
                        } else {
                            assert(listed(names@, lens));
                        }
                    }
                    if in_some_run(some, lens) {
                        let x = choose|x: int|
                            0 <= x < some.len() && (#[trigger] some[x]).footer.contains_key(lens);
                        assert(more[x].footer.contains_key(lens));
                    }
                    if exists|x: int| 0 <= x < names@.len() && (#[trigger] names@[x])@ == lens {
                        assert(listed(names@, lens));
                        assert(more[i as int].footer.contains_key(lens));
                    }
                }
            }
            i = i + 1;
        }
        let names = found.names();
        proof {
            assert(self@.runs.take(self.runs@.len() as int) =~= self@.runs);
            assert forall|lens: Seq<char>| #[trigger] listed(names@, lens) <==> in_some_run(
                self@.runs,
                lens,
            ) by {
                assert(found@.contains_key(lens) <==> listed(names@, lens));
            }
        }
        names
    }

    fn runs_having(&self, lens: &str) -> (r: Vec<bool>)
        ensures
            chosen(self@.runs, r@, having(lens@)),
    {
        let ghost pick = having::<V>(lens@);
        let mut picks: Vec<bool> = Vec::new();
        let mut i: usize = 0;
        while i < self.runs.len()
            invariant
                i <= self.runs@.len(),
                picks@.len() == i,
                pick == having::<V>(lens@),
                forall|k: int| 0 <= k < i ==> #[trigger] picks@[k] == pick(self@.runs[k]),
            decreases self.runs@.len() - i,
        {
            let run = &self.runs[i];
            proof {
                assert(self@.runs[i as int] == run@);
                assert(run@.footer.contains_key(lens@) <==> run.stats@.contains_key(lens@));
            }
            picks.push(run.stats.contains_key(lens));
            i = i + 1;
        }
        picks
    }

    /// What all runs hold, compacted lens by lens.
    fn merge_runs(&self) -> (r: Result<NameMap<Vec<Layer<V>>>, FormatError>)
        ensures
            match r {
                Ok(stacks) => merged_stacks(self@, stacks_view(stacks@)) && stacks_wf(
                    stacks_view(stacks@),
                ),
                Err(e) => unmergeable(self@, e),
            },
    {
        let names = self.run_lenses();
        let mut out: NameMap<Vec<Layer<V>>> = NameMap::new();
        let mut i: usize = 0;
        while i < names.len()
            invariant
                i <= names@.len(),
                forall|lens: Seq<char>| #[trigger]
                    listed(names@, lens) <==> in_some_run(self@.runs, lens),
                forall|lens: Seq<char>| #[trigger]
                    out@.contains_key(lens) <==> exists|k: int|
                        0 <= k < i && (#[trigger] names@[k])@ == lens,
                forall|lens: Seq<char>| #[trigger]
                    out@.contains_key(lens) ==> stack_wf(out@[lens]@) && lens_merged(
                        self@,
                        lens,
                        out@[lens]@,
                    ),
            decreases names@.len() - i,
        {
            let lens = names[i].as_str();
            let picks = self.runs_having(lens);
            proof {
                assert(listed(names@, names@[i as int]@));
                assert(in_some_run(self@.runs, lens@));
            }
            if let Some(e) = failure(&self.runs, &picks) {
                assert(chosen(self@.runs, picks@, having(lens@)));
                return Err(e);
            }
            let below = gather(&self.runs, &picks, lens, self.epoch_now(lens));
            let ghost low = below@;
            let stack = settle(below);
            let ghost before = out@;
            let ghost top = stack@;
            proof {
                let sorted = choose|sorted: Seq<Layer<V>>| #[trigger] settled(low, sorted, top);
                assert(merged_lens(self@, lens@, picks@, low, sorted, top));
            }
            out.insert(lens, stack);
            proof {
                assert forall|l: Seq<char>| #[trigger] out@.contains_key(l) <==> exists|k: int|
                    0 <= k < i + 1 && (#[trigger] names@[k])@ == l by {
                    if out@.contains_key(l) {
                        if l == lens@ {
                            assert(0 <= i < i + 1 && names@[i as int]@ == l);
                        } else {
                            assert(before.contains_key(l));
                        }
                    }
                    if exists|k: int| 0 <= k < i + 1 && (#[trigger] names@[k])@ == l {
                        let k = choose|k: int| 0 <= k < i + 1 && (#[trigger] names@[k])@ == l;
                        if k < i {
                            assert(before.contains_key(l));
                        }
                    }
                }
                assert forall|l: Seq<char>| #[trigger] out@.contains_key(l) implies stack_wf(
                    out@[l]@,
                ) && lens_merged(self@, l, out@[l]@) by {
                    if l != lens@ {
                        assert(before.contains_key(l));
                    }
                }
            }
            i = i + 1;
        }
        proof {
            let stacks = stacks_view(out@);
            assert forall|l: Seq<char>| #[trigger] stacks.contains_key(l) <==> in_some_run(
                self@.runs,
                l,
            ) by {
                assert(stacks.contains_key(l) <==> out@.contains_key(l));
                if in_some_run(self@.runs, l) {
                    assert(listed(names@, l));
                }
                if out@.contains_key(l) {
                    assert(listed(names@, l));
                }
            }
            assert forall|l: Seq<char>| #[trigger] stacks.contains_key(l) implies lens_merged(
                self@,
                l,
                stacks[l],
            ) by {
                assert(out@.contains_key(l));
            }
            assert forall|l: Seq<char>| #[trigger] stacks.contains_key(l) implies stack_wf(
                stacks[l],
            ) by {
                assert(out@.contains_key(l));
            }
        }
        Ok(out)
    }

    /// Merges all runs into one.
    fn gc_runs(&mut self) -> (r: (Vec<FileAction>, Result<(), FormatError>))
        requires
            old(self)@.wf(),
        ensures
            final(self)@.wf(),
            same_settings(&*old(self), &*final(self)),
            match r.1 {
                Ok(()) => if old(self)@.runs.len() <= 1 {
                    r.0@.len() == 0 && final(self)@ == old(self)@
                } else {
                    was_collected::<V>(
                        old(self)@,
                        key_bytes(old(self).key),
                        old(self).compression_level,
                        r.0@,
                        final(self)@,
                    )
                },
                Err(e) => old(self)@.runs.len() > 1 && merge_failed::<V>(
                    old(self)@,
                    old(self).key,
                    old(self).compression_level,
                    e,
                    r.0@,
                    final(self)@,
                ),
            },
    {
        let ghost v = self@;
        if self.runs.len() <= 1 {
            return (Vec::new(), Ok(()));
        }
        let stacks = match self.merge_runs() {
            Ok(stacks) => stacks,
            Err(e) => {
                return (Vec::new(), Err(e));
            },
        };
        let ghost whole = stacks_view(stacks@);
        let entries = flatten(&stacks, &self.lens_epoch);
        let ghost es = entries@;
        proof {
            lemma_flat_sound(es, whole, v.epochs);
        }
        let mut acts: Vec<FileAction> = Vec::new();
        let mut removals: Vec<FileAction> = Vec::new();
        let mut i: usize = 0;
        while i < self.runs.len()
            invariant
                i <= self.runs@.len(),
                self@ == v,
                removals@.len() == i,
                forall|k: int|
                    0 <= k < i ==> #[trigger] removals@[k] == (FileAction::RemoveRun {
                        id: v.runs[k].id,
                    }),
            decreases self.runs@.len() - i,
        {
            assert(v.runs[i as int].id == self.runs@[i as int].id);
            removals.push(FileAction::RemoveRun { id: self.runs[i].id });
            i = i + 1;
        }
        let ghost mut told: FooterV = Map::empty();
        if entries.len() == 0 {
            self.runs = Vec::new();
            assert(self@ =~= (StoreV { runs: Seq::empty(), ..v }));
        } else {
            let id: u64 = self.next_run_id;
            self.next_run_id = id.wrapping_add(1);
            let (bytes, stats) = match write_run(&entries, &self.key, self.compression_level) {
                Ok(x) => x,
                Err(e) => {
                    proof {
                        assert(self@ =~= (StoreV {
                            next_run_id: v.next_run_id.wrapping_add(1),
                            ..v
                        }));
                        assert(merge_stopped::<V>(
                            v,
                            self.key,
                            self.compression_level,
                            e,
                            whole,
                            es,
                            told,
                            acts@,
                            self@,
                        ));
                    }
                    return (acts, Err(e));
                },
            };
            proof {
                told = footer_view(stats@);
            }
            acts.push(FileAction::Run { id, bytes });
            let mut one: Vec<RunHandle<V>> = Vec::new();
            one.push(RunHandle { id, stats, body: Ok(entries) });
            self.runs = one;
            proof {
                assert(run_views(self.runs@) =~= Seq::empty().push(
                    RunV { id, footer: told, body: Ok(es) },
                ));
                assert(self@ =~= with_run(v, Seq::empty(), told, es));
            }
        }
        proof {
            assert forall|i: int| 0 <= i < self@.runs.len() implies filters_wf(
                (#[trigger] self@.runs[i]).footer,
            ) by {}
        }
        let file = match self.manifest() {
            Ok(file) => file,
            Err(e) => {
                assert(merge_stopped::<V>(
                    v,
                    self.key,
                    self.compression_level,
                    e,
                    whole,
                    es,
                    told,
                    acts@,
                    self@,
                ));
                return (acts, Err(e));
            },
        };
        acts.push(FileAction::Manifest(file));
        let ghost n = acts@.len();
        let ghost gone = removals@;
        let ghost head = acts@;
        acts.append(&mut removals);
        proof {
            assert(acts@ =~= head + gone);
            assert forall|i: int| 0 <= i < v.runs.len() implies #[trigger] acts@[n + i] == (
            FileAction::RemoveRun { id: v.runs[i].id }) by {
                assert(acts@[n + i] == gone[i]);
            }
            assert(collected::<V>(
                v,
                key_bytes(self.key),
                self.compression_level,
                whole,
                es,
                told,
                acts@,
                self@,
            ));
        }
        (acts, Ok(()))
    }

    /// Moves what is in memory into a run, merges the runs where there are more than the
    /// threshold, and gives the files that are to be written and removed, in order. Where it
    /// fails half way, the actions up to there are still to be taken.
    pub fn checkpoint_flush(&mut self) -> (r: (Vec<FileAction>, Result<(), FormatError>))
        requires
            old(self)@.wf(),
        ensures
            final(self)@.wf(),
            same_settings(&*old(self), &*final(self)),
            match r.1 {
                Ok(()) => was_checkpointed::<V>(
                    old(self)@,
                    key_bytes(old(self).key),
                    old(self).compression_level,
                    old(self).run_gc_threshold,
                    r.0@,
                    final(self)@,
                ),
                Err(e) => checkpoint_failed::<V>(
                    old(self)@,
                    old(self).key,
                    old(self).compression_level,
                    old(self).run_gc_threshold,
                    e,
                    r.0@,
                    final(self)@,
                ),
            },
    {
        let ghost v = self@;
        let mut acts = match self.flush_memtable_to_run() {
            Ok(acts) => acts,
            Err(e) => {
                return (Vec::new(), Err(e));
            },
        };
        let ghost mid = self@;
        let ghost moved = acts@;
        let ghost mut merged: Seq<FileAction> = Seq::empty();
        if self.runs.len() > self.run_gc_threshold {
            let (mut more, done) = self.gc_runs();
            proof {
                merged = more@;
            }
            acts.append(&mut more);
            if let Err(e) = done {
                proof {
                    assert(acts@ =~= moved + merged);
                    assert(checkpoint_stopped::<V>(
                        v,
                        self.key,
                        self.compression_level,
                        self.run_gc_threshold,
                        e,
                        mid,
                        moved,
                        merged,
                        acts@,
                        self@,
                    ));
                }
                return (acts, Err(e));
            }
        }
        assert(acts@ =~= moved + merged);
        let file = match self.manifest() {
            Ok(file) => file,
            Err(e) => {
                assert(checkpoint_stopped::<V>(
                    v,
                    self.key,
                    self.compression_level,
                    self.run_gc_threshold,
                    e,
                    mid,
                    moved,
                    merged,
                    acts@,
                    self@,
                ));
                return (acts, Err(e));
            },
        };
        let ghost before = acts@;
        acts.push(FileAction::Manifest(file));
        proof {
            assert(acts@.drop_last() =~= before);
            assert(checkpointed::<V>(
                v,
                key_bytes(self.key),
                self.compression_level,
                self.run_gc_threshold,
                mid,
                moved,
                merged,
                acts@,
                self@,
            ));
        }
        (acts, Ok(()))
    }
}

/// A flush failed: no run can be made of what is in memory. A number is used up.
pub open spec fn flush_failed<V: Codec>(
    v: StoreV<V>,
    key: Option<Seq<u8>>,
    level: i32,
    e: FormatError,
    after: StoreV<V>,
) -> bool {
    &&& after == (StoreV { next_run_id: v.next_run_id.wrapping_add(1), ..v })
    &&& exists|entries: Seq<RunEntry<V>>| #[trigger]
        flattened(entries, v.memtable, v.epochs) && entries.len() > 0 && run_refused::<V>(
            e,
            entry_views(entries),
            key,
            level,
        )
}

/// A run that is to be merged cannot be read.
pub open spec fn unmergeable<V>(v: StoreV<V>, e: FormatError) -> bool {
    exists|lens: Seq<char>, picks: Seq<bool>|
        in_some_run(v.runs, lens) && #[trigger] chosen(v.runs, picks, having(lens))
            && first_failure(v.runs, picks) == Some(e)
}

/// Merging the runs failed: a run cannot be read, no run can be made of what they hold, or
/// no manifest of what came of it. The actions are those to take all the same.
pub open spec fn merge_failed<V: Codec>(
    v: StoreV<V>,
    key: Option<[u8; 32]>,
    level: i32,
    e: FormatError,
    acts: Seq<FileAction>,
    after: StoreV<V>,
) -> bool {
    ||| unmergeable(v, e) && acts.len() == 0 && after == v
    ||| exists|stacks: Stacks<V>, entries: Seq<RunEntry<V>>, footer: FooterV| #[trigger]
        merge_stopped::<V>(v, key, level, e, stacks, entries, footer, acts, after)
}

pub open spec fn merge_stopped<V: Codec>(
    v: StoreV<V>,
    key: Option<[u8; 32]>,
    level: i32,
    e: FormatError,
    stacks: Stacks<V>,
    entries: Seq<RunEntry<V>>,
    footer: FooterV,
    acts: Seq<FileAction>,
    after: StoreV<V>,
) -> bool {
    &&& merged_stacks(v, stacks)
    &&& flattened(entries, stacks, v.epochs)
    &&& if entries.len() == 0 {
        acts.len() == 0 && after == (StoreV { runs: Seq::empty(), ..v }) && manifest_refused(
            e,
            after,
            key,
        )
    } else {
        ||| acts.len() == 0 && run_refused::<V>(e, entry_views(entries), key_bytes(key), level)
            && after == (StoreV { next_run_id: v.next_run_id.wrapping_add(1), ..v })
        ||| acts.len() == 1 && writes_run::<V>(
            acts[0],
            v.next_run_id,
            entries,
            key_bytes(key),
            level,
            footer,
        ) && after == with_run(v, Seq::empty(), footer, entries) && manifest_refused(e, after, key)
    }
}

/// A checkpoint failed, in the flush, in merging the runs, or at the last manifest. The
/// actions are those to take all the same.
pub open spec fn checkpoint_failed<V: Codec>(
    v: StoreV<V>,
    key: Option<[u8; 32]>,
    level: i32,
    gc_threshold: usize,
    e: FormatError,
    acts: Seq<FileAction>,
    after: StoreV<V>,
) -> bool {
    ||| flush_failed::<V>(v, key_bytes(key), level, e, after) && acts.len() == 0
    ||| exists|mid: StoreV<V>, moved: Seq<FileAction>, merged: Seq<FileAction>| #[trigger]
        checkpoint_stopped::<V>(v, key, level, gc_threshold, e, mid, moved, merged, acts, after)
}

pub open spec fn checkpoint_stopped<V: Codec>(
    v: StoreV<V>,
    key: Option<[u8; 32]>,
    level: i32,
    gc_threshold: usize,
    e: FormatError,
    mid: StoreV<V>,
    moved: Seq<FileAction>,
    merged: Seq<FileAction>,
    acts: Seq<FileAction>,
    after: StoreV<V>,
) -> bool {
    let merges = mid.runs.len() > gc_threshold && mid.runs.len() > 1;
    &&& was_flushed::<V>(v, key_bytes(key), level, moved, mid)
    &&& acts == moved + merged
    &&& {
        ||| merges && merge_failed::<V>(mid, key, level, e, merged, after)
        ||| manifest_refused(e, after, key) && if merges {
            was_collected::<V>(mid, key_bytes(key), level, merged, after)
        } else {
            merged.len() == 0 && after == mid
        }
    }
}

/// A checkpoint: a flush, a merge of the runs where there are too many, and the manifest.
pub open spec fn checkpointed<V: Codec>(
    v: StoreV<V>,
    key: Option<Seq<u8>>,
    level: i32,
    gc_threshold: usize,
    mid: StoreV<V>,
    moved: Seq<FileAction>,
    merged: Seq<FileAction>,
    acts: Seq<FileAction>,
    after: StoreV<V>,
) -> bool {
    &&& was_flushed::<V>(v, key, level, moved, mid)
    &&& if mid.runs.len() <= gc_threshold || mid.runs.len() <= 1 {
        merged.len() == 0 && after == mid
    } else {
        was_collected::<V>(mid, key, level, merged, after)
    }
    &&& acts.len() == moved.len() + merged.len() + 1
    &&& acts.drop_last() == moved + merged
    &&& acts.last() matches FileAction::Manifest(file) && manifest_file(file@, after, key)
}

pub open spec fn was_checkpointed<V: Codec>(
    v: StoreV<V>,
    key: Option<Seq<u8>>,
    level: i32,
    gc_threshold: usize,
    acts: Seq<FileAction>,
    after: StoreV<V>,
) -> bool {
    exists|mid: StoreV<V>, moved: Seq<FileAction>, merged: Seq<FileAction>| #[trigger]
        checkpointed::<V>(v, key, level, gc_threshold, mid, moved, merged, acts, after)
}

/// Pairs as a map; the last word on a name counts.
pub open spec fn as_pairs(pairs: Seq<(Seq<char>, u64)>) -> Map<Seq<char>, u64>
    decreases pairs.len(),
{
    if pairs.len() == 0 {
        Map::empty()
    } else {
        as_pairs(pairs.drop_last()).insert(pairs.last().0, pairs.last().1)
    }
}

/// The run is what its file holds.
pub open spec fn run_read<V: Codec>(
    run: RunV<V>,
    id: u64,
    file: Seq<u8>,
    key: Option<Seq<u8>>,
) -> bool {
    &&& run.id == id
    &&& footer_of(file, key) == Ok::<FooterV, FormatError>(run.footer)
    &&& match entries_of::<V>(file, key) {
        Ok(es) => run.body is Ok && entry_views(run.body->Ok_0) == es,
        Err(e) => run.body is Err && run.body->Err_0 == e,
    }
}

/// A store opened from a manifest and the files of its runs.
pub open spec fn opened<V: Codec>(
    m: ManifestV,
    files: Seq<Vec<u8>>,
    key: Option<Seq<u8>>,
    v: StoreV<V>,
) -> bool {
    &&& v.memtable == Map::<Seq<char>, Seq<Layer<V>>>::empty()
    &&& v.schema == m.schema
    &&& forall|lens: Seq<char>| #[trigger]
        v.live.contains_key(lens) <==> m.live_lenses.contains(lens)
    &&& v.epochs == as_pairs(m.epochs)
    &&& v.next_run_id == if m.next_run_id == 0 {
        1
    } else {
        m.next_run_id
    }
    &&& v.absorbed == Map::<Seq<char>, Seq<u64>>::empty()
    &&& v.layer_count == as_pairs(m.layer_counts).map_values(|n: u64| n as usize)
    &&& v.runs.len() == m.run_ids.len()
    &&& forall|i: int|
        0 <= i < v.runs.len() ==> run_read::<V>(#[trigger] v.runs[i], m.run_ids[i], files[i]@, key)
}

/// The error of the first file whose footer cannot be read.
pub open spec fn first_bad_footer(files: Seq<Vec<u8>>, key: Option<Seq<u8>>) -> Option<FormatError>
    decreases files.len(),
{
    if files.len() == 0 {
        None
    } else {
        match first_bad_footer(files.drop_last(), key) {
            Some(e) => Some(e),
            None => match footer_of(files.last()@, key) {
                Ok(_) => None,
                Err(e) => Some(e),
            },
        }
    }
}

proof fn lemma_bad_footer(files: Seq<Vec<u8>>, key: Option<Seq<u8>>, i: int)
    requires
        0 <= i < files.len(),
        first_bad_footer(files.take(i), key) is None,
        footer_of(files[i]@, key) is Err,
    ensures
        first_bad_footer(files, key) == Some(footer_of(files[i]@, key)->Err_0),
    decreases files.len(),
{
    if i == files.len() - 1 {
        assert(files.take(i) =~= files.drop_last());
    } else {
        assert(files.drop_last().take(i) =~= files.take(i));
        lemma_bad_footer(files.drop_last(), key, i);
    }
}

fn pair_map(pairs: &Vec<(String, u64)>) -> (r: NameMap<u64>)
    ensures
        r@ == as_pairs(pairs_of(pairs@)),
{
    let ghost all = pairs_of(pairs@);
    let mut out: NameMap<u64> = NameMap::new();
    let mut i: usize = 0;
    assert(all.take(0) =~= Seq::empty());
    while i < pairs.len()
        invariant
            i <= pairs@.len(),
            all == pairs_of(pairs@),
            out@ == as_pairs(all.take(i as int)),
        decreases pairs@.len() - i,
    {
        proof {
            assert(all.take(i + 1).drop_last() =~= all.take(i as int));
            assert(all.take(i + 1).last() == (pairs@[i as int].0@, pairs@[i as int].1));
        }
        out.insert(pairs[i].0.as_str(), pairs[i].1);
        i = i + 1;
    }
    assert(all.take(all.len() as int) =~= all);
    out
}

fn count_map(pairs: &Vec<(String, u64)>) -> (r: NameMap<usize>)
    ensures
        r@ == as_pairs(pairs_of(pairs@)).map_values(|n: u64| n as usize),
{
    let ghost all = pairs_of(pairs@);
    let ghost narrow = |n: u64| n as usize;
    let mut out: NameMap<usize> = NameMap::new();
    let mut i: usize = 0;
    proof {
        assert(all.take(0) =~= Seq::empty());
        assert(out@ =~= as_pairs(all.take(0)).map_values(narrow));
    }
    while i < pairs.len()
        invariant
            i <= pairs@.len(),
            all == pairs_of(pairs@),
            narrow == (|n: u64| n as usize),
            out@ == as_pairs(all.take(i as int)).map_values(narrow),
        decreases pairs@.len() - i,
    {
        let ghost before = as_pairs(all.take(i as int));
        proof {
            assert(all.take(i + 1).drop_last() =~= all.take(i as int));
            assert(all.take(i + 1).last() == (pairs@[i as int].0@, pairs@[i as int].1));
        }
        let n: usize = pairs[i].1 as usize;
        out.insert(pairs[i].0.as_str(), n);
        assert(out@ =~= as_pairs(all.take(i + 1)).map_values(narrow));
        i = i + 1;
    }
    assert(all.take(all.len() as int) =~= all);
    out
}

/// An empty store.
pub open spec fn empty_store<V>() -> StoreV<V> {
    StoreV {
        memtable: Map::empty(),
        runs: Seq::empty(),
        schema: Seq::empty(),
        live: Map::empty(),
        epochs: Map::empty(),
        next_run_id: 1,
        absorbed: Map::empty(),
        layer_count: Map::empty(),
    }
}

/// The settings of a new store.
pub open spec fn usual_settings<V>(s: &Sstable<V>, key: Option<[u8; 32]>) -> bool {
    &&& s.key == key
    &&& s.compression_level == DEFAULT_ZSTD_LEVEL
    &&& s.run_gc_threshold == COMPACT_THRESHOLD
    &&& s.limits() == (Limits { general: COMPACT_THRESHOLD, own: Map::empty() })
}

impl<V: Codec> Sstable<V> {
    /// A new store, with nothing in it.
    pub fn create(key: Option<[u8; 32]>) -> (r: Self)
        ensures
            r@ == empty_store::<V>(),
            r@.wf(),
            usual_settings(&r, key),
    {
        let r: Sstable<V> = Sstable {
            key,
            compression_level: DEFAULT_ZSTD_LEVEL,
            compact_threshold: COMPACT_THRESHOLD,
            run_gc_threshold: COMPACT_THRESHOLD,
            lens_compact: NameMap::new(),
            memtable: NameMap::new(),
            runs: Vec::new(),
            schema: Vec::new(),
            live_lenses: NameMap::new(),
            lens_epoch: NameMap::new(),
            next_run_id: 1,
            absorbed: NameMap::new(),
            layer_count: NameMap::new(),
        };
        assert(r@ =~= empty_store::<V>());
        r
    }

    /// A store as its manifest and the files of its runs say, in the order in which the
    /// manifest names the runs.
    pub fn open(data: ManifestData, files: &Vec<Vec<u8>>, key: Option<[u8; 32]>) -> (r: Result<
        Self,
        FormatError,
    >)
        requires
            files@.len() == data.run_ids@.len(),
        ensures
            match r {
                Ok(store) => {
                    &&& first_bad_footer(files@, key_bytes(key)) is None
                    &&& opened::<V>(data@, files@, key_bytes(key), store@)
                    &&& store@.wf()
                    &&& usual_settings(&store, key)
                },
                Err(e) => first_bad_footer(files@, key_bytes(key)) == Some(e),
            },
    {
        let mut runs: Vec<RunHandle<V>> = Vec::new();
        let mut i: usize = 0;
        while i < files.len()
            invariant
                i <= files@.len(),
                files@.len() == data.run_ids@.len(),
                runs@.len() == i,
                first_bad_footer(files@.take(i as int), key_bytes(key)) is None,
                forall|k: int|
                    0 <= k < i ==> run_read::<V>(
                        (#[trigger] runs@[k])@,
                        data.run_ids@[k],
                        files@[k]@,
                        key_bytes(key),
                    ) && filters_wf(runs@[k]@.footer),
            decreases files@.len() - i,
        {
            proof {
                assert(files@.take(i + 1).drop_last() =~= files@.take(i as int));
                assert(files@.take(i + 1).last() == files@[i as int]);
            }
            let stats = match read_run_footer(&files[i], &key) {
                Ok(stats) => stats,
                Err(e) => {
                    proof {
                        lemma_bad_footer(files@, key_bytes(key), i as int);
                    }
                    return Err(e);
                },
            };
            let body = read_run_entries::<V>(&files[i], &key);
            runs.push(RunHandle { id: data.run_ids[i], stats, body });
            i = i + 1;
        }
        assert(files@.take(files@.len() as int) =~= files@);
        let mut live_lenses: NameMap<()> = NameMap::new();
        let mut j: usize = 0;
        while j < data.live_lenses.len()
            invariant
                j <= data.live_lenses@.len(),
                forall|lens: Seq<char>| #[trigger]
                    live_lenses@.contains_key(lens) <==> exists|k: int|
                        0 <= k < j && (#[trigger] data.live_lenses@[k])@ == lens,
            decreases data.live_lenses@.len() - j,
        {
            let ghost before = live_lenses@;
            live_lenses.insert(data.live_lenses[j].as_str(), ());
            proof {
                assert forall|lens: Seq<char>| #[trigger] live_lenses@.contains_key(lens)
                    <==> exists|k: int|
                    0 <= k < j + 1 && (#[trigger] data.live_lenses@[k])@ == lens by {
                    if live_lenses@.contains_key(lens) {
                        if lens == data.live_lenses@[j as int]@ {
                            assert(0 <= j < j + 1 && data.live_lenses@[j as int]@ == lens);
                        } else {
                            assert(before.contains_key(lens));
                        }
                    }
                    if exists|k: int| 0 <= k < j + 1 && (#[trigger] data.live_lenses@[k])@ == lens {
                        let k = choose|k: int|
                            0 <= k < j + 1 && (#[trigger] data.live_lenses@[k])@ == lens;
                        if k < j {
                            assert(before.contains_key(lens));
                        }
                    }
                }
            }
            j = j + 1;
        }
        let lens_epoch = pair_map(&data.epochs);
        let layer_count = count_map(&data.layer_counts);
        let next_run_id: u64 = if data.next_run_id == 0 {
            1
        } else {
            data.next_run_id
        };
        let ghost m = data@;
        let ghost names = data.live_lenses@;
        let store: Sstable<V> = Sstable {
            key,
            compression_level: DEFAULT_ZSTD_LEVEL,
            compact_threshold: COMPACT_THRESHOLD,
            run_gc_threshold: COMPACT_THRESHOLD,
            lens_compact: NameMap::new(),
            memtable: NameMap::new(),
            runs,
            schema: data.schema,
            live_lenses,
            lens_epoch,
            next_run_id,
            absorbed: NameMap::new(),
            layer_count,
        };
        proof {
            let v = store@;
            assert(v.memtable =~= Map::<Seq<char>, Seq<Layer<V>>>::empty());
            assert(v.absorbed =~= Map::<Seq<char>, Seq<u64>>::empty());
            assert forall|lens: Seq<char>| #[trigger] v.live.contains_key(lens)
                <==> m.live_lenses.contains(lens) by {
                if v.live.contains_key(lens) {
                    let k = choose|k: int| 0 <= k < names.len() && (#[trigger] names[k])@ == lens;
                    assert(m.live_lenses[k] == lens);
                }
                if m.live_lenses.contains(lens) {
                    let k = choose|k: int| 0 <= k < m.live_lenses.len() && m.live_lenses[k] == lens;
                    assert(names[k]@ == lens);
                }
            }
            assert forall|i: int| 0 <= i < v.runs.len() implies run_read::<V>(
                #[trigger] v.runs[i],
                m.run_ids[i],
                files@[i]@,
                key_bytes(key),
            ) && filters_wf(v.runs[i].footer) by {
                assert(v.runs[i] == runs@[i]@);
            }
        }
        Ok(store)
    }
}

} // verus!
