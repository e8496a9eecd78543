use std::collections::BTreeMap;
use std::time::Duration;

use lsm_compaction::{Command, CompactionKind, CompactionStats, Kvs};

struct TestRng {
    state: u64,
}

impl TestRng {
    fn new(seed: u64) -> Self {
        Self { state: seed }
    }

    fn next(&mut self) -> u64 {
        self.state = self
            .state
            .wrapping_mul(6_364_136_223_846_793_005)
            .wrapping_add(1);
        self.state
    }
}

#[test]
fn kvs_matches_btree_map_for_pseudorandom_commands() {
    let mut kvs = Kvs::new(17, 3);
    let mut reference = BTreeMap::new();
    let mut rng = TestRng::new(0xc001_cafe_f00d_babe);

    for _ in 0..10_000 {
        let key = (rng.next() % 257) as u32;

        match rng.next() % 10 {
            0..=4 => {
                let value = rng.next();
                kvs.put(key, value);
                reference.insert(key, value);
            }
            5..=7 => {
                kvs.delete(key);
                reference.remove(&key);
            }
            _ => {
                assert_eq!(kvs.get(key), reference.get(&key).copied());
            }
        }
    }

    for key in 0..257 {
        assert_eq!(kvs.get(key), reference.get(&key).copied());
    }
}

#[test]
fn a_full_buffer_becomes_a_table() {
    let mut kvs = Kvs::new(2, 10);
    kvs.put(1, 10);
    assert_eq!((kvs.buffered_len(), kvs.table_count()), (1, 0));
    kvs.put(1, 11);
    assert_eq!((kvs.buffered_len(), kvs.table_count()), (0, 1));
    kvs.delete(1);
    assert_eq!((kvs.buffered_len(), kvs.table_count()), (1, 1));
    assert_eq!(kvs.get(1), None);
}

#[test]
fn enough_tables_are_compacted_into_one() {
    let mut kvs = Kvs::new(2, 3);
    for key in 0..5 {
        kvs.put(key, u64::from(key) + 100);
    }
    assert_eq!((kvs.buffered_len(), kvs.table_count()), (1, 2));
    assert!(kvs.take_compaction_stats().is_empty());
    kvs.delete(0);
    assert_eq!((kvs.buffered_len(), kvs.table_count()), (0, 1));
    let stats = kvs.take_compaction_stats();
    assert_eq!(stats.len(), 1);
    assert_eq!(
        stats[0],
        CompactionStats {
            id: 0,
            kind: CompactionKind::Cpu,
            input_tables: 3,
            output_tables: 1,
            input_entries: 6,
            output_entries: 4,
            elapsed: stats[0].elapsed,
        }
    );
    assert_eq!(stats[0].removed_entries(), 2);
    assert!(kvs.take_compaction_stats().is_empty());
    assert_eq!(kvs.get(0), None);
    for key in 1..5 {
        assert_eq!(kvs.get(key), Some(u64::from(key) + 100));
    }
}

#[test]
fn a_threshold_of_one_compacts_every_table() {
    let mut kvs = Kvs::new(1, 1);
    kvs.put(1, 10);
    kvs.put(2, 20);
    kvs.delete(1);
    assert_eq!(kvs.table_count(), 1);
    let stats = kvs.take_compaction_stats();
    let ids: Vec<u64> = stats.iter().map(|s| s.id).collect();
    let outputs: Vec<usize> = stats.iter().map(|s| s.output_entries).collect();
    assert_eq!(ids, vec![0, 1, 2]);
    assert_eq!(outputs, vec![1, 2, 1]);
    assert_eq!(kvs.get(1), None);
    assert_eq!(kvs.get(2), Some(20));
}

#[test]
fn a_flush_of_an_empty_buffer_does_nothing() {
    let mut kvs = Kvs::new(4, 2);
    kvs.flush();
    assert_eq!(kvs.table_count(), 0);
    kvs.put(1, 10);
    kvs.flush();
    kvs.flush();
    assert_eq!((kvs.buffered_len(), kvs.table_count()), (0, 1));
    assert_eq!(kvs.get(1), Some(10));
}

#[test]
fn a_compaction_without_tables_does_nothing() {
    let mut kvs = Kvs::new(4, 2);
    kvs.put(1, 10);
    assert_eq!(kvs.compact(), None);
    assert!(kvs.take_compaction_stats().is_empty());
    assert_eq!(kvs.get(1), Some(10));
}

#[test]
fn a_compaction_on_request() {
    let mut kvs = Kvs::new(4, 8);
    kvs.put(1, 10);
    kvs.flush();
    kvs.delete(1);
    kvs.flush();
    kvs.put(2, 20);
    let stats = kvs.compact().unwrap();
    assert_eq!((stats.input_tables, stats.output_tables), (2, 1));
    assert_eq!((stats.input_entries, stats.output_entries), (2, 0));
    assert_eq!((kvs.buffered_len(), kvs.table_count()), (1, 1));
    let again = kvs.compact().unwrap();
    assert_eq!((again.id, again.input_entries), (1, 0));
    assert_eq!(kvs.take_compaction_stats(), vec![stats, again]);
    assert_eq!(kvs.get(1), None);
    assert_eq!(kvs.get(2), Some(20));
}

#[test]
fn a_deleted_key_can_be_put_again() {
    let mut kvs = Kvs::new(3, 2);
    kvs.put(5, 1);
    kvs.delete(5);
    assert_eq!(kvs.get(5), None);
    kvs.put(5, 2);
    kvs.flush();
    assert_eq!(kvs.get(5), Some(2));
}

#[test]
fn the_default_buffers_64_entries_and_compacts_4_tables() {
    let mut kvs = Kvs::default();
    for i in 0..64 * 4 - 1 {
        kvs.put(i, 1);
    }
    assert_eq!((kvs.buffered_len(), kvs.table_count()), (63, 3));
    kvs.put(0, 2);
    assert_eq!((kvs.buffered_len(), kvs.table_count()), (0, 1));
    let stats = kvs.take_compaction_stats();
    assert_eq!((stats[0].input_entries, stats[0].output_entries), (256, 255));
    assert_eq!(kvs.get(0), Some(2));
}

#[test]
fn a_copy_goes_its_own_way() {
    let mut kvs = Kvs::new(2, 2);
    kvs.put(1, 10);
    let mut copy = kvs.clone();
    copy.put(1, 11);
    copy.put(2, 20);
    assert_eq!((kvs.get(1), kvs.get(2)), (Some(10), None));
    assert_eq!((copy.get(1), copy.get(2)), (Some(11), Some(20)));
}

#[test]
fn a_new_store_can_be_written_and_waits_for_no_device() {
    let mut kvs = Kvs::new(1, 1);
    assert!(kvs.can_write());
    assert_eq!(kvs.device_columns(), None);
    kvs.put(1, 1);
    assert!(kvs.can_write());
    assert_eq!(kvs.device_columns(), None);
}

#[test]
fn removed_entries_do_not_go_below_zero() {
    let stats = CompactionStats {
        id: 0,
        kind: CompactionKind::Cpu,
        input_tables: 1,
        output_tables: 1,
        input_entries: 3,
        output_entries: 5,
        elapsed: Duration::ZERO,
    };
    assert_eq!(stats.removed_entries(), 0);
}

#[test]
fn a_command_is_carried_out() {
    let mut kvs = Kvs::new(2, 2);
    assert_eq!(kvs.apply(Command::Get { key: 1 }), None);
    assert_eq!(kvs.apply(Command::Put { key: 1, value: 10 }), None);
    assert_eq!(kvs.buffered_len(), 1);
    assert_eq!(kvs.apply(Command::Get { key: 1 }), Some(10));
    assert_eq!(kvs.buffered_len(), 1);
    assert_eq!(kvs.apply(Command::Delete { key: 1 }), None);
    assert_eq!((kvs.buffered_len(), kvs.table_count()), (0, 1));
    assert_eq!(kvs.apply(Command::Get { key: 1 }), None);
}
