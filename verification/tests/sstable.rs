//! The store of runs, its files and its manifest.

use libtau::bloom::{bloom_bucket_of, bloom_bucket_width, bloom_insert_interval, Bloom};
use libtau::bytes::FormatError;
use libtau::database::Record;
use libtau::inputs::Inputs;
use libtau::layers::layers_get;
use libtau::manifest::{read_manifest, write_manifest, ManifestData};
use libtau::memory::InMemory;
use libtau::model::{Bound, Layer, Tau};
use libtau::run::{may_hold, read_run_entries, read_run_footer, write_run, RunEntry};
use libtau::sstable::{FileAction, Sstable};
use libtau::state::DbState;
use libtau::value::Value;
use std::collections::BTreeMap;

/// A small linear congruential generator, so that the cases are the same in every run.
struct Draw(u64);

impl Draw {
    fn next(&mut self) -> u64 {
        self.0 = self
            .0
            .wrapping_mul(6364136223846793005)
            .wrapping_add(1442695040888963407);
        self.0 >> 16
    }

    fn within(&mut self, lo: i64, hi: i64) -> i64 {
        lo + (self.next() % ((hi - lo) as u64 + 1)) as i64
    }

    fn flip(&mut self) -> bool {
        self.next() % 2 == 0
    }
}

/// What stands for the directory of a store.
#[derive(Default)]
struct Dir {
    manifest: Vec<u8>,
    runs: BTreeMap<u64, Vec<u8>>,
}

impl Dir {
    fn apply(&mut self, actions: Vec<FileAction>) {
        for action in actions {
            match action {
                FileAction::Manifest(bytes) => self.manifest = bytes,
                FileAction::Run { id, bytes } => {
                    self.runs.insert(id, bytes);
                }
                FileAction::RemoveRun { id } => {
                    self.runs.remove(&id);
                }
            }
        }
    }

    fn open(&self, key: Option<[u8; 32]>) -> Result<Sstable<i32>, FormatError> {
        let data = read_manifest(&self.manifest, &key)?;
        let files: Vec<Vec<u8>> = data.run_ids.iter().map(|id| self.runs[id].clone()).collect();
        Sstable::open(data, &files, key)
    }
}

struct Disk {
    store: Sstable<i32>,
    dir: Dir,
}

impl Disk {
    fn create(key: Option<[u8; 32]>) -> Self {
        let store: Sstable<i32> = Sstable::create(key);
        let mut dir = Dir::default();
        dir.manifest = store.manifest().unwrap();
        Disk { store, dir }
    }

    fn append(&mut self, lens: &str, layer: Layer<i32>) -> bool {
        let (shorter, manifest) = self.store.append(lens, layer).unwrap();
        if let Some(bytes) = manifest {
            self.dir.manifest = bytes;
        }
        shorter
    }

    fn flush(&mut self) {
        let (actions, done) = self.store.checkpoint_flush();
        self.dir.apply(actions);
        done.unwrap();
    }

    fn drop_lens(&mut self, lens: &str) {
        self.dir.manifest = self.store.drop_lens(lens).unwrap();
    }
}

fn layer(id: u64, items: &[(i64, i64, i32)], written_at: i64) -> Layer<i32> {
    Layer::new_at(
        id,
        items.iter().map(|&(s, e, v)| Tau::new(s, e, v)).collect(),
        written_at,
    )
}

#[test]
fn round_trips_through_memtable_only() {
    let mut d = Disk::create(None);
    d.append("x", layer(1, &[(0, 10, 42)], 100));
    assert_eq!(d.store.at("x", 5), Some(42));
    assert_eq!(d.store.get("x", &[5], None), Some(42));
    assert_eq!(d.store.scan("x", 0, 10, &[], None), vec![(0, 10, 42)]);
}

#[test]
fn round_trips_through_a_flushed_run() {
    let mut d = Disk::create(None);
    d.append("x", layer(1, &[(0, 10, 42)], 100));
    d.flush();
    // The memory is now empty; the value must come from the run.
    assert_eq!(d.dir.runs.len(), 1);
    assert_eq!(d.store.at("x", 5), Some(42));
    assert_eq!(d.store.scan("x", 0, 10, &[], None), vec![(0, 10, 42)]);

    // Open from scratch: the manifest and the run files bring the store back.
    let reopened = d.dir.open(None).unwrap();
    assert_eq!(reopened.at("x", 5), Some(42));
    assert_eq!(reopened.lens_names(), vec!["x".to_string()]);
}

#[test]
fn newest_wins_across_memtable_and_run() {
    let mut d = Disk::create(None);
    d.append("x", layer(1, &[(0, 10, 1)], 100));
    d.flush();
    d.append("x", layer(2, &[(0, 10, 2)], 200));
    assert_eq!(d.store.at("x", 5), Some(2));

    // As of a time before the second write, the first is seen.
    assert_eq!(d.store.get("x", &[5], Some(150)), Some(1));
    assert_eq!(d.store.get("x", &[5], Some(250)), Some(2));
}

#[test]
fn drop_then_recreate_hides_old_epoch_data() {
    let mut d = Disk::create(None);
    d.append("x", layer(1, &[(0, 10, 1)], 100));
    d.flush();
    assert_eq!(d.store.at("x", 5), Some(1));

    d.drop_lens("x");
    assert_eq!(d.store.at("x", 5), None);
    assert!(d.store.layers("x").is_none());

    // New data does not bring the dropped value back, though the run still holds it.
    d.append("x", layer(1, &[(0, 10, 99)], 300));
    assert_eq!(d.store.at("x", 5), Some(99));
    assert_eq!(d.store.at("x", 20), None);
}

#[test]
fn run_gc_preserves_generations_and_values() {
    let mut d = Disk::create(None);
    d.store.set_run_gc_threshold(2);
    for i in 0..5i64 {
        d.append(
            "x",
            layer(i as u64 + 1, &[(i * 10, i * 10 + 10, i as i32)], i * 100),
        );
        d.flush(); // one run per append, so that runs are merged
    }
    let run_count = d.store.runs.len();
    assert!(
        run_count <= 2,
        "expected compaction to shrink run count, got {run_count}"
    );
    assert_eq!(d.dir.runs.len(), run_count);
    for i in 0..5i64 {
        assert_eq!(d.store.at("x", i * 10 + 5), Some(i as i32));
    }
    // Every transaction-time generation must have survived.
    let layers = d.store.layers("x").unwrap();
    let mut gens: Vec<i64> = layers.iter().map(|l| l.written_at).collect();
    gens.sort_unstable();
    gens.dedup();
    assert_eq!(gens, vec![0, 100, 200, 300, 400]);
}

#[test]
fn encrypted_round_trip() {
    let key = [7u8; 32];
    let mut d = Disk::create(Some(key));
    d.append("x", layer(1, &[(0, 10, 42)], 100));
    d.flush();

    let reopened = d.dir.open(Some(key)).unwrap();
    assert_eq!(reopened.at("x", 5), Some(42));

    // The wrong key must fail to open, and so must none.
    assert!(d.dir.open(Some([9u8; 32])).is_err());
    assert!(matches!(
        d.dir.open(None),
        Err(FormatError::ManifestKeyMissing)
    ));
}

#[test]
fn nd_round_trip_through_run() {
    let mut d = Disk::create(None);
    let taus = vec![
        Tau::try_new_nd(&[(0, 100), (0, 50)], 1i32).unwrap(),
        Tau::try_new_nd(&[(0, 100), (50, 100)], 2i32).unwrap(),
    ];
    let l = Layer::try_new_nd_at(1, taus, 100).unwrap();
    d.append("grid", l);
    d.flush();
    assert_eq!(d.store.get("grid", &[10, 25], None), Some(1));
    assert_eq!(d.store.get("grid", &[10, 75], None), Some(2));
    assert_eq!(d.store.scan("grid", 0, 100, &[25], None), vec![(0, 100, 1)]);
    let reopened = d.dir.open(None).unwrap();
    assert_eq!(reopened.get("grid", &[10, 75], None), Some(2));
}

#[test]
fn pbt_append_at_matches_reference_across_flushes() {
    for seed in 1..=60 {
        let mut tc = Draw(seed);
        let mut d = Disk::create(None);
        let n = tc.within(1, 10);
        let mut reference: Vec<(i64, i64, i32)> = Vec::new();
        let mut cursor: i64 = 0;
        for i in 0..n {
            let start = cursor + tc.within(0, 20);
            let end = start + tc.within(1, 50);
            let value = tc.next() as i32;
            cursor = end;
            d.append("x", layer(i as u64 + 1, &[(start, end, value)], i * 100));
            reference.push((start, end, value));
            if tc.flip() {
                d.flush();
            }
        }
        d.flush();
        let back = d.dir.open(None).unwrap();
        for _ in 0..10 {
            let probe = tc.within(-10, cursor + 10);
            let expected = reference
                .iter()
                .rev()
                .find(|&&(s, e, _)| s <= probe && probe < e)
                .map(|&(_, _, v)| v);
            assert_eq!(d.store.at("x", probe), expected);
            assert_eq!(back.at("x", probe), expected);
        }
    }
}

/// The sum of the values over a window, stretch by stretch, with no merging of neighbours:
/// it tells how many layers survive.
fn raw_reduce_sum(layers: &[Layer<i32>], start: i64, end: i64) -> i64 {
    if start >= end {
        return 0;
    }
    let mut bounds = vec![start, end];
    for l in layers {
        for t in l.taus.iter() {
            if t.start() > start && t.start() < end {
                bounds.push(t.start());
            }
            if t.end() > start && t.end() < end {
                bounds.push(t.end());
            }
        }
    }
    bounds.sort_unstable();
    bounds.dedup();
    bounds
        .windows(2)
        .filter_map(|w| layers_get(layers, &[w[0]], None))
        .map(i64::from)
        .sum()
}

#[test]
fn pbt_sstable_matches_inmemory_reduce_sum() {
    for seed in 1..=60 {
        let mut tc = Draw(seed);
        let compact_threshold = tc.within(1, 4) as usize;
        let mut sst = Disk::create(None);
        sst.store.set_compact_threshold(compact_threshold);
        let mut mem: InMemory<i32> = InMemory::with_threshold(compact_threshold);

        let gens = [0i64, 100, 100, 200, 300, 300, 300];
        let n = tc.within(1, 30);
        let mut cursor: i64 = 0;
        for i in 0..n {
            let start = cursor + tc.within(0, 15);
            let end = start + tc.within(1, 30);
            let value = tc.next() as i32;
            cursor = end;
            let written_at = gens[tc.within(0, gens.len() as i64 - 1) as usize];
            let id = i as u64 + 1;
            sst.append("x", layer(id, &[(start, end, value)], written_at));
            mem.append("x", layer(id, &[(start, end, value)], written_at));
            if tc.flip() {
                sst.flush();
            }

            let probe_end = cursor.max(1);
            let sst_layers = sst.store.layers("x").unwrap();
            let mem_layers = mem.layers("x").unwrap();
            let sst_sum = raw_reduce_sum(&sst_layers, 0, probe_end);
            let mem_sum = raw_reduce_sum(&mem_layers, 0, probe_end);
            assert_eq!(
                sst_sum, mem_sum,
                "op {i}: sums over 0 {probe_end} diverged (runs={sst_sum} memory={mem_sum})"
            );
        }
    }
}

#[test]
fn a_lens_spread_over_runs_is_compacted_as_a_whole() {
    let mut d = Disk::create(None);
    d.store.set_compact_threshold(3);
    for i in 0..3i64 {
        assert!(!d.append("x", layer(i as u64 + 1, &[(i * 10, i * 10 + 10, 7)], 0)));
        d.flush();
    }
    assert!(d.append("x", layer(4, &[(30, 40, 7)], 0)));
    assert_eq!(d.store.layers("x").unwrap().len(), 1);
    assert_eq!(d.store.scan("x", 0, 100, &[], None), vec![(0, 40, 7)]);
    d.flush();
    let back = d.dir.open(None).unwrap();
    assert_eq!(back.scan("x", 0, 100, &[], None), vec![(0, 40, 7)]);
}

#[test]
fn thresholds_and_declarations_are_kept() {
    let mut d = Disk::create(None);
    d.store.set_compression_level(5);
    d.store.set_lens_compact_threshold("x", Some(0));
    for i in 0..10i64 {
        assert!(!d.append("x", layer(i as u64 + 1, &[(i, i + 1, 1)], 0)));
    }
    d.store.set_lens_compact_threshold("x", None);
    assert!(d.append("x", layer(11, &[(10, 11, 1)], 0)));
    d.dir.manifest = d.store.append_schema("CREATE LENS x int").unwrap();
    d.flush();
    let back = d.dir.open(None).unwrap();
    assert_eq!(back.schema_stmts(), vec!["CREATE LENS x int".to_string()]);
    assert_eq!(back.scan("x", 0, 20, &[], None), vec![(0, 11, 1)]);
    assert_eq!(back.next_run_id, 2);
}

fn entries() -> Vec<RunEntry<Value>> {
    let entry = |lens: &str, lo: i64, hi: i64, value: Value| RunEntry {
        lens: lens.into(),
        layer_id: 7,
        written_at: -5,
        epoch: 3,
        coords: vec![Bound { lo, hi }, Bound { lo: 0, hi: 1 }],
        value,
    };
    vec![
        entry("a", -10, 10, Value::Int(-42)),
        entry("a", 20, 30, Value::Float(1.5f64.to_bits())),
        entry("b", 0, 1, Value::Str("caf\u{e9}".into())),
        entry("b", 1, 2, Value::Bool(true)),
        entry("b", 2, 3, Value::Null),
    ]
}

#[test]
fn a_run_file_is_read_back() {
    for key in [None, Some([3u8; 32])] {
        let es = entries();
        let (file, stats) = write_run(&es, &key, 3).unwrap();
        let back = read_run_entries::<Value>(&file, &key).unwrap();
        assert_eq!(back.len(), es.len());
        for (x, y) in back.iter().zip(&es) {
            assert_eq!(x.lens, y.lens);
            assert_eq!(x.layer_id, y.layer_id);
            assert_eq!(x.written_at, y.written_at);
            assert_eq!(x.epoch, y.epoch);
            assert_eq!(x.coords, y.coords);
            assert_eq!(x.value, y.value);
        }
        let footer = read_run_footer(&file, &key).unwrap();
        for lens in ["a", "b"] {
            let (x, y) = (footer.get(lens).unwrap(), stats.get(lens).unwrap());
            assert_eq!((x.min_start, x.max_end, x.count), (y.min_start, y.max_end, y.count));
            assert_eq!(x.bloom.bits, y.bloom.bits);
        }
        let a = footer.get("a").unwrap();
        assert_eq!((a.min_start, a.max_end, a.count), (-10, 30, 2));
        assert!(footer.get("c").is_none());
    }
}

#[test]
fn a_compressible_body_makes_a_short_file() {
    let es: Vec<RunEntry<i32>> = (0..1000i64)
        .map(|i| RunEntry {
            lens: "a lens with a long name".into(),
            layer_id: 1,
            written_at: 0,
            epoch: 0,
            coords: vec![Bound { lo: i, hi: i + 1 }],
            value: 0,
        })
        .collect();
    let (file, _) = write_run(&es, &None, 3).unwrap();
    assert!(file.len() < 30_000, "{}", file.len());
    assert_eq!(read_run_entries::<i32>(&file, &None).unwrap().len(), 1000);
}

#[test]
fn runs_of_the_first_layout_are_read_without_their_filters() {
    let (mut file, _) = write_run(&entries(), &None, 3).unwrap();
    assert_eq!(file[4], 2);
    let now = read_run_footer(&file, &None).unwrap();
    assert!((11..20).any(|t| !may_hold(&now, "a", t)));
    file[4] = 1;
    let sum = crc32fast::hash(&file[..6]).to_le_bytes();
    file[6..10].copy_from_slice(&sum);
    let then = read_run_footer(&file, &None).unwrap();
    for t in -10..30 {
        assert!(may_hold(&then, "a", t));
    }
    assert!(!may_hold(&then, "a", 30));
    assert_eq!(then.get("a").unwrap().count, now.get("a").unwrap().count);
    assert_eq!(read_run_entries::<Value>(&file, &None).unwrap().len(), 5);
}

#[test]
fn damaged_run_files_are_refused() {
    let (file, _) = write_run(&entries(), &None, 3).unwrap();
    let damaged = |at: usize| {
        let mut f = file.clone();
        f[at] ^= 0xff;
        f
    };
    assert!(matches!(
        read_run_footer(&damaged(0), &None),
        Err(FormatError::BadMagic)
    ));
    assert!(matches!(
        read_run_footer(&damaged(4), &None),
        Err(FormatError::UnsupportedVersion { expected: 2, got: 0xfd })
    ));
    assert!(matches!(
        read_run_footer(&damaged(6), &None),
        Err(FormatError::HeaderChecksum)
    ));
    assert!(matches!(
        read_run_footer(&damaged(file.len() - 1), &None),
        Err(FormatError::FooterLength)
    ));
    assert!(matches!(
        read_run_entries::<Value>(&damaged(file.len() - 1), &None),
        Err(FormatError::RunLayout)
    ));
    assert!(matches!(
        read_run_entries::<Value>(&damaged(10), &None),
        Err(FormatError::Decompression)
    ));
    assert!(matches!(
        read_run_footer(&file[..9].to_vec(), &None),
        Err(FormatError::Truncated)
    ));
    assert!(matches!(
        read_run_footer(&file[..12].to_vec(), &None),
        Err(FormatError::RunTooShort)
    ));
    let (locked, _) = write_run(&entries(), &Some([1u8; 32]), 3).unwrap();
    assert!(matches!(
        read_run_footer(&locked, &None),
        Err(FormatError::RunKeyMissing)
    ));
    assert!(matches!(
        read_run_entries::<Value>(&locked, &Some([2u8; 32])),
        Err(FormatError::Decryption)
    ));
}

#[test]
fn a_run_that_cannot_be_read_is_passed_over() {
    let mut d = Disk::create(None);
    d.append("x", layer(1, &[(0, 10, 1)], 100));
    d.flush();
    d.append("x", layer(2, &[(0, 5, 2)], 200));
    d.flush();
    d.dir.runs.get_mut(&2).unwrap()[12] ^= 0xff;
    let back = d.dir.open(None).unwrap();
    assert_eq!(back.at("x", 3), Some(1));
}

#[test]
fn manifests_are_read_back_and_checked() {
    let data = ManifestData {
        schema: vec!["CREATE LENS x int".into(), String::new()],
        live_lenses: vec!["x".into()],
        epochs: vec![("x".into(), 4)],
        run_ids: vec![1, 9, 3],
        next_run_id: 10,
        layer_counts: vec![("x".into(), 6)],
    };
    for key in [None, Some([5u8; 32])] {
        let file = write_manifest(&data, &key).unwrap();
        let back = read_manifest(&file, &key).unwrap();
        assert_eq!(back.schema, data.schema);
        assert_eq!(back.live_lenses, data.live_lenses);
        assert_eq!(back.epochs, data.epochs);
        assert_eq!(back.run_ids, data.run_ids);
        assert_eq!(back.next_run_id, data.next_run_id);
        assert_eq!(back.layer_counts, data.layer_counts);
    }
    let file = write_manifest(&data, &None).unwrap();
    let mut wrong = file.clone();
    wrong[12] ^= 1;
    assert!(matches!(
        read_manifest(&wrong, &None),
        Err(FormatError::ManifestChecksum)
    ));
    assert!(matches!(
        read_manifest(&file[..12].to_vec(), &None),
        Err(FormatError::ManifestTooShort)
    ));
    assert_eq!(
        FormatError::UnsupportedVersion { expected: 1, got: 7 }.message(),
        "unsupported version: expected 1, got 7"
    );
}

#[test]
fn a_filter_never_denies_a_point_of_an_interval() {
    for seed in 1..=40 {
        let mut tc = Draw(seed);
        let n = tc.within(1, 20);
        let mut intervals: Vec<(i64, i64)> = Vec::new();
        for _ in 0..n {
            let lo = tc.within(-100_000, 100_000);
            intervals.push((lo, lo + tc.within(1, 5_000)));
        }
        let min = intervals.iter().map(|i| i.0).min().unwrap();
        let max = intervals.iter().map(|i| i.1).max().unwrap();
        let width = bloom_bucket_width(min, max);
        let mut bloom = Bloom::new(intervals.len());
        for &(lo, hi) in &intervals {
            bloom_insert_interval(&mut bloom, lo, hi, min, width);
        }
        let again = Bloom::from_parts(bloom.n_bits, &bloom.to_bytes());
        for &(lo, hi) in &intervals {
            for t in [lo, hi - 1, lo + (hi - lo) / 2] {
                assert!(bloom.might_contain(bloom_bucket_of(t, min, width)));
                assert!(again.might_contain(bloom_bucket_of(t, min, width)));
            }
        }
    }
    let empty = Bloom::new(1);
    assert!(!empty.might_contain(3));
}

#[test]
fn spans_over_all_of_time_have_buckets() {
    let width = bloom_bucket_width(i64::MIN, i64::MAX);
    let b = |t: i64| bloom_bucket_of(t, i64::MIN, width);
    assert_eq!(b(i64::MIN), 0);
    assert_eq!(b(0), 128);
    assert_eq!(b(i64::MAX - 1), 255);
}

#[test]
fn a_span_has_at_most_256_buckets() {
    for span in [1, 2, 255, 256, 257, 511, 512, 513, 1_000_003] {
        let width = bloom_bucket_width(-7, span - 7);
        assert!(width >= 1);
        assert_eq!(bloom_bucket_of(-7, -7, width), 0);
        assert!(bloom_bucket_of(span - 8, -7, width) <= 255);
    }
    assert_eq!(bloom_bucket_width(0, 511), 2);
    assert_eq!(bloom_bucket_width(0, 256), 1);
    assert_eq!(bloom_bucket_width(5, 5), 1);
    assert_eq!(bloom_bucket_of(-1, 0, 10), -1);
}

#[test]
fn a_filter_of_no_bits_takes_nothing_in_and_denies_nothing() {
    let mut none = Bloom::from_parts(0, &Vec::new());
    bloom_insert_interval(&mut none, 3, 9, 0, 2);
    assert_eq!(none.n_bits, 0);
    assert!(none.might_contain(1));
    assert!(none.might_contain(100));
}

#[test]
fn merging_and_compaction_change_no_answer() {
    let mut d = Disk::create(None);
    d.store.set_run_gc_threshold(100);
    d.store.set_compact_threshold(0);
    for (i, items) in [
        vec![(0, 10, 1), (20, 30, 2)],
        vec![(5, 25, 3)],
        vec![(7, 8, 4), (24, 40, 5)],
        vec![(0, 2, 6)],
    ]
    .into_iter()
    .enumerate()
    {
        d.append("x", layer(i as u64 + 1, &items, 100 * (i as i64 / 2 + 1)));
        d.flush();
    }
    assert_eq!(d.dir.runs.len(), 4);
    let ask = |d: &Disk| -> Vec<Option<i32>> {
        let mut out = Vec::new();
        for t in -1..41 {
            out.push(d.store.get("x", &[t], None));
            out.push(d.store.get("x", &[t], Some(100)));
        }
        out
    };
    let before = ask(&d);
    // Merging.
    d.store.set_run_gc_threshold(1);
    d.append("y", layer(9, &[(0, 1, 0)], 300));
    d.flush();
    assert_eq!(d.dir.runs.len(), 1);
    assert_eq!(ask(&d), before);
    // Taking back into memory: one layer more than the threshold.
    d.store.set_lens_compact_threshold("x", Some(1));
    d.append("x", layer(10, &[(100, 110, 7)], 400));
    assert_eq!(ask(&d), before);
    assert_eq!(d.store.at("x", 105), Some(7));
}

#[test]
fn a_merge_that_fails_leaves_the_flushed_run_to_be_written() {
    let mut d = Disk::create(None);
    d.store.set_run_gc_threshold(100);
    for id in 1..=2 {
        d.append("x", layer(id, &[(0, 10, id as i32)], id as i64));
        d.flush();
    }
    // The body of the first run is damaged, its footer is not.
    let first = *d.dir.runs.keys().next().unwrap();
    let bytes = d.dir.runs.get_mut(&first).unwrap();
    bytes[12] ^= 0xff;
    let mut store = d.dir.open(None).unwrap();
    store.set_run_gc_threshold(1);
    store.append("x", layer(3, &[(20, 30, 3)], 3)).unwrap();
    let (actions, done) = store.checkpoint_flush();
    assert!(done.is_err());
    assert_eq!(actions.len(), 1);
    d.dir.apply(actions);
    assert_eq!(d.dir.runs.len(), 3);
    assert_eq!(store.at("x", 25), Some(3));
    assert_eq!(store.at("x", 5), Some(2));
}

#[test]
fn a_database_opens_from_its_store() {
    let mut store: Sstable<Value> = Sstable::create(None);
    for line in ["CREATE LENS x int", "CREATE LENS y int", "DROP LENS y"] {
        store.append_schema(line).unwrap();
    }
    let value_layer = |id: u64, lo: i64, hi: i64, v: i64| {
        Layer::new_at(id, vec![Tau::new(lo, hi, Value::Int(v))], id as i64)
    };
    store.append("x", value_layer(1, 0, 10, 1)).unwrap();
    let (_, done) = store.checkpoint_flush();
    done.unwrap();
    store.append("x", value_layer(2, 5, 15, 2)).unwrap();
    let wal = vec![Record::Layer("x".to_string(), value_layer(3, 12, 20, 3))];
    let state = DbState::with_disk(&store, wal, 100, &Inputs::new(0));
    for (t, v) in [(3, Some(1)), (7, Some(2)), (13, Some(3)), (25, None)] {
        assert_eq!(state.db.at_name("x", t), v.map(Value::Int), "{t}");
    }
    assert_eq!(state.catalog.types.names(), vec!["x".to_string()]);
    assert_eq!(state.next_layer_id, 4);
    // A log with declarations of its own stands in for the store's.
    let wal = vec![Record::Schema("CREATE LENS z bool".to_string())];
    let state = DbState::with_disk(&store, wal, 100, &Inputs::new(0));
    assert_eq!(state.catalog.types.names(), vec!["z".to_string()]);
    assert_eq!(state.db.at_name("x", 7), Some(Value::Int(2)));
}
