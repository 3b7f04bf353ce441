//! A store with its log.

use libtau::database::{Database, Record, CHECKPOINT_COMPACTION_INTERVAL};
use libtau::faults::FaultInjector;
use libtau::memory::{InMemory, COMPACT_THRESHOLD};
use libtau::model::{Layer, Tau};

/// A small linear congruential generator, so that the cases are the same in every run.
struct Draw(u64);

impl Draw {
    fn next(&mut self) -> u64 {
        self.0 = self
            .0
            .wrapping_mul(6364136223846793005)
            .wrapping_add(1442695040888963407);
        self.0 >> 16
    }

    fn within(&mut self, lo: i64, hi: i64) -> i64 {
        lo + (self.next() % ((hi - lo) as u64 + 1)) as i64
    }

    fn taus(&mut self, least: i64) -> Vec<Tau<i64>> {
        let n = self.within(least, 10);
        let mut taus = Vec::new();
        let mut cursor: i64 = 0;
        for _ in 0..n {
            let s = cursor + self.within(0, 10);
            let e = s + self.within(1, 20);
            taus.push(Tau::new(s, e, self.next() as i64));
            cursor = e;
        }
        taus
    }
}

fn db() -> Database<i64> {
    Database::new(InMemory::new())
}

fn layer(id: u64, items: &[(i64, i64, i64)]) -> Layer<i64> {
    Layer::new_at(
        id,
        items.iter().map(|&(s, e, v)| Tau::new(s, e, v)).collect(),
        0,
    )
}

fn log_of(db: &Database<i64>) -> Vec<Record<i64>> {
    db.log.as_ref().unwrap().iter().map(|r| r.dup()).collect()
}

#[test]
fn pbt_base_lookup_matches_layer_lookup() {
    for seed in 1..=60 {
        let mut tc = Draw(seed);
        let taus = tc.taus(0);
        let probe = tc.within(-5, 500);
        let mut db = db();
        if !taus.is_empty() {
            db.append("x", Layer::new(1, taus.clone()), &mut FaultInjector::new())
                .unwrap();
        }
        let expected = taus.iter().find(|t| t.contains(probe)).map(|t| t.value);
        assert_eq!(db.at_name("x", probe), expected);
        assert_eq!(db.get("x", &[probe], None), expected);
    }
}

#[test]
fn pbt_newest_layer_wins_after_multiple_appends() {
    for seed in 1..=60 {
        let mut tc = Draw(seed);
        let taus_a = tc.taus(1);
        let taus_b = tc.taus(1);
        let probe = tc.within(-5, 500);
        let mut db = db();
        let mut faults = FaultInjector::new();
        db.append("x", Layer::new(1, taus_a.clone()), &mut faults).unwrap();
        db.append("x", Layer::new(2, taus_b.clone()), &mut faults).unwrap();

        let expected = taus_b
            .iter()
            .find(|t| t.contains(probe))
            .map(|t| t.value)
            .or_else(|| taus_a.iter().find(|t| t.contains(probe)).map(|t| t.value));
        assert_eq!(db.at_name("x", probe), expected);
    }
}

#[test]
fn checkpoint_rewrites_wal_after_compaction() {
    let mut db = Database::open(COMPACT_THRESHOLD, Vec::new());
    let mut faults = FaultInjector::new();

    // The first compaction comes with the append after the threshold, and each further one
    // as many appends later. The last of these appends rewrites the log.
    let total_appends = COMPACT_THRESHOLD * CHECKPOINT_COMPACTION_INTERVAL + 1;
    for i in 0..total_appends {
        let i = i as i64;
        db.append("x", layer((i + 1) as u64, &[(i * 10, i * 10 + 10, i)]), &mut faults)
            .unwrap();
    }

    let ids: Vec<u64> = log_of(&db)
        .iter()
        .filter_map(|r| match r {
            Record::Layer(_, l) => Some(l.id),
            _ => None,
        })
        .collect();
    assert_eq!(
        ids.len(),
        1,
        "the log should hold exactly one layer after the checkpoint, got {ids:?}"
    );
}

#[test]
fn interleaved_append_and_checkpoint_preserve_all_layers() {
    let mut db = Database::open(COMPACT_THRESHOLD, Vec::new());
    let mut faults = FaultInjector::new();
    for i in 0..50i64 {
        db.append("x", layer((i + 1) as u64, &[(i * 10, i * 10 + 10, i)]), &mut faults)
            .unwrap();
        db.checkpoint();
    }
    for i in 0..50i64 {
        assert_eq!(db.at_name("x", i * 10), Some(i));
    }
    let db2 = Database::open(COMPACT_THRESHOLD, log_of(&db));
    for i in 0..50i64 {
        assert_eq!(db2.at_name("x", i * 10), Some(i));
    }
}

#[test]
fn a_log_brings_back_layers_and_declarations() {
    let mut db = Database::open(COMPACT_THRESHOLD, Vec::new());
    let mut faults = FaultInjector::new();
    db.append_schema("CREATE LENS x int", &mut faults).unwrap();
    db.append("x", layer(3, &[(0, 10, 42)]), &mut faults).unwrap();
    db.append("y", layer(4, &[(0, 10, 1)]), &mut faults).unwrap();
    db.append_drop("y", &mut faults).unwrap();
    db.drop_lens("y");

    let back = Database::open(COMPACT_THRESHOLD, log_of(&db));
    assert_eq!(
        back.schema_stmts(),
        vec!["CREATE LENS x int".to_string(), "DROP LENS y".to_string()]
    );
    assert_eq!(back.at_name("x", 5), Some(42));
    assert_eq!(back.at_name("y", 5), None);
    assert_eq!(back.max_layer_id(), 3);
    let infos = back.layer_infos("x");
    assert_eq!(infos.len(), 1);
    assert_eq!((infos[0].min_start, infos[0].max_end, infos[0].tau_count), (0, 10, 1));
    assert_eq!(back.export_layers().len(), 1);
    assert_eq!(back.scan("x", 0, 100, &[], None), vec![(0, 10, 42)]);
}

#[test]
fn a_failed_write_is_an_error_and_changes_nothing() {
    let mut db = Database::open(COMPACT_THRESHOLD, Vec::new());
    let mut faults = FaultInjector::new();
    faults.arm_wal_write_failure(2);
    db.append("x", layer(1, &[(0, 10, 1)]), &mut faults).unwrap();
    assert!(db.append("x", layer(2, &[(0, 10, 2)]), &mut faults).is_err());
    assert_eq!(db.at_name("x", 5), Some(1));
    assert_eq!(log_of(&db).len(), 1);
}
