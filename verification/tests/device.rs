use std::collections::BTreeMap;
use std::time::Duration;

use lsm_compaction::{
    compact, compact_with_kind, Command, CommandStream, CompactionKind, CompactionWork, Entry,
    EntryColumns, Kvs, SsTable,
};

/// Stands in for a device: sorts the rows, takes the first of each key, leaves out the marked ones.
fn run_device(columns: &EntryColumns) -> SsTable {
    let mut rows: Vec<(u32, u32, u64, u32)> = (0..columns.keys.len())
        .map(|i| (columns.keys[i], columns.seqs[i], columns.values[i], columns.is_deleted[i]))
        .collect();
    rows.sort_unstable_by_key(|row| (row.0, !row.1));
    rows.dedup_by_key(|row| row.0);
    rows.retain(|row| row.3 == 0);
    let keys: Vec<u32> = rows.iter().map(|row| row.0).collect();
    let seqs: Vec<u32> = rows.iter().map(|row| row.1).collect();
    let values: Vec<u64> = rows.iter().map(|row| row.2).collect();
    SsTable::from_columns(&keys, &seqs, &values)
}

fn small_input() -> Vec<SsTable> {
    vec![
        SsTable::new(vec![
            Entry::put(1, 0, 10),
            Entry::put(2, 1, 20),
            Entry::put(1, 2, 11),
        ]),
        SsTable::new(vec![
            Entry::delete(2, 3),
            Entry::put(3, 4, 30),
            Entry::put(1, 5, 12),
        ]),
    ]
}

#[test]
fn the_columns_of_tables() {
    match compact_with_kind(small_input(), CompactionKind::Gpu) {
        CompactionWork::Device(columns) => assert_eq!(
            columns,
            EntryColumns {
                keys: vec![1, 1, 2, 1, 2, 3],
                seqs: vec![0, 2, 1, 5, 3, 4],
                values: vec![10, 11, 20, 12, 0, 30],
                is_deleted: vec![0, 0, 0, 0, 1, 0],
            }
        ),
        CompactionWork::Table(_) => panic!("a device is needed"),
    }
}

#[test]
fn device_compaction_matches_cpu_for_small_input() {
    let columns = EntryColumns::of_tables(&small_input());
    assert_eq!(run_device(&columns), compact(small_input()));
}

#[test]
fn a_table_from_columns_ends_with_the_shortest() {
    let table = SsTable::from_columns(&vec![5, 4, 3], &vec![1, 2], &vec![50, 40, 30, 20]);
    assert_eq!(table.entries(), &[Entry::put(4, 2, 40), Entry::put(5, 1, 50)]);
    let table = SsTable::from_columns(&vec![5, 4], &vec![1, 2], &vec![50]);
    assert_eq!(table.entries(), &[Entry::put(5, 1, 50)]);
    assert!(SsTable::from_columns(&vec![], &vec![1], &vec![2]).is_empty());
}

#[test]
fn a_store_waits_for_the_device() {
    let mut kvs = Kvs::new_with_compaction(1, 2, CompactionKind::Gpu);
    kvs.put(1, 10);
    assert_eq!(kvs.device_columns(), None);
    kvs.put(1, 11);
    assert!(!kvs.can_write());
    assert_eq!(kvs.table_count(), 2);
    assert_eq!(kvs.get(1), Some(11));
    let columns = kvs.device_columns().unwrap();
    assert_eq!(columns.keys, vec![1, 1]);
    let elapsed = Duration::from_millis(3);
    let stats = kvs.finish_compaction(run_device(&columns), elapsed).unwrap();
    assert_eq!((stats.id, stats.kind), (0, CompactionKind::Gpu));
    assert_eq!((stats.input_tables, stats.output_tables), (2, 1));
    assert_eq!((stats.input_entries, stats.output_entries), (2, 1));
    assert_eq!(stats.elapsed, elapsed);
    assert_eq!(kvs.take_compaction_stats(), vec![stats]);
    assert_eq!(kvs.device_columns(), None);
    assert!(kvs.can_write());
    assert_eq!(kvs.table_count(), 1);
    assert_eq!(kvs.get(1), Some(11));
}

#[test]
fn a_request_on_a_gpu_waits_for_the_device() {
    let mut kvs = Kvs::new_with_compaction(4, 8, CompactionKind::Gpu);
    assert_eq!(kvs.compact(), None);
    assert_eq!(kvs.device_columns(), None);
    kvs.delete(1);
    kvs.flush();
    assert_eq!(kvs.compact(), None);
    let columns = kvs.device_columns().unwrap();
    assert_eq!(columns.is_deleted, vec![1]);
    let stats = kvs.finish_compaction(run_device(&columns), Duration::ZERO).unwrap();
    assert_eq!(stats.output_entries, 0);
    let empty = kvs.compact().unwrap();
    assert_eq!((empty.id, empty.input_tables, empty.input_entries), (1, 1, 0));
}

#[test]
fn nothing_is_taken_in_where_no_device_is_waited_for() {
    let mut kvs = Kvs::new_with_compaction(1, 2, CompactionKind::Gpu);
    kvs.put(1, 10);
    let table = SsTable::new(vec![Entry::put(2, 0, 20)]);
    assert_eq!(kvs.finish_compaction(table, Duration::ZERO), None);
    assert_eq!(kvs.table_count(), 1);
    assert_eq!((kvs.get(1), kvs.get(2)), (Some(10), None));
    assert!(kvs.take_compaction_stats().is_empty());
}

#[test]
fn a_table_is_taken_in_whatever_it_holds() {
    let waiting = || {
        let mut kvs = Kvs::new_with_compaction(1, 2, CompactionKind::Gpu);
        kvs.put(1, 10);
        kvs.put(2, 20);
        kvs
    };

    let mut kvs = waiting();
    let twice = SsTable::new(vec![Entry::put(1, 0, 10), Entry::put(1, 1, 11)]);
    let stats = kvs.finish_compaction(twice, Duration::ZERO).unwrap();
    assert_eq!((stats.input_entries, stats.output_entries), (2, 2));
    assert_eq!(kvs.table_count(), 1);
    assert_eq!((kvs.get(1), kvs.get(2)), (Some(11), None));

    let mut kvs = waiting();
    let longer = SsTable::new(vec![
        Entry::put(1, 0, 1),
        Entry::delete(2, 0),
        Entry::put(3, 0, 3),
    ]);
    let stats = kvs.finish_compaction(longer, Duration::ZERO).unwrap();
    assert_eq!((stats.input_entries, stats.output_entries), (2, 3));
    assert_eq!(stats.removed_entries(), 0);
    assert_eq!((kvs.get(1), kvs.get(2), kvs.get(3)), (Some(1), None, Some(3)));

    let mut kvs = waiting();
    let stats = kvs.finish_compaction(SsTable::default(), Duration::ZERO).unwrap();
    assert_eq!(stats.output_entries, 0);
    assert_eq!((kvs.get(1), kvs.get(2)), (None, None));
    assert!(kvs.can_write());
}

#[test]
fn a_table_newer_than_the_buffer_gives_way_to_it_until_they_are_compacted() {
    let mut kvs = Kvs::new_with_compaction(4, 8, CompactionKind::Gpu);
    kvs.put(1, 10);
    kvs.flush();
    kvs.put(2, 20);
    assert_eq!(kvs.compact(), None);
    let newer = SsTable::new(vec![Entry::put(2, 9, 99)]);
    assert!(kvs.finish_compaction(newer, Duration::ZERO).is_some());
    assert_eq!((kvs.get(1), kvs.get(2)), (None, Some(20)));
    kvs.flush();
    assert_eq!(kvs.table_count(), 2);
    assert_eq!(kvs.get(2), Some(20));
    assert_eq!(kvs.compact(), None);
    let columns = kvs.device_columns().unwrap();
    assert!(kvs.finish_compaction(run_device(&columns), Duration::ZERO).is_some());
    assert_eq!(kvs.get(2), Some(99));
}

#[test]
fn sequence_numbers_are_given_out_in_turn() {
    let mut kvs = Kvs::new_with_compaction(2, 2, CompactionKind::Gpu);
    kvs.put(4, 1);
    assert_eq!(kvs.get(4), Some(1));
    kvs.delete(3);
    kvs.put(2, 1);
    assert_eq!(kvs.apply(Command::Get { key: 3 }), None);
    kvs.put(1, 1);
    let columns = kvs.device_columns().unwrap();
    assert_eq!(columns.keys, vec![3, 4, 1, 2]);
    assert_eq!(columns.seqs, vec![1, 0, 3, 2]);
}

#[test]
fn a_store_on_a_device_matches_btree_map() {
    let mut kvs = Kvs::new_with_compaction(13, 4, CompactionKind::Gpu);
    let mut reference = BTreeMap::new();
    let mut stream = CommandStream::new(0x1234_5678_9abc_def0, 97);
    let mut compactions = 0;

    for _ in 0..10_000 {
        let command = stream.next().unwrap();
        let found = kvs.apply(command);
        match command {
            Command::Put { key, value } => {
                assert_eq!(found, None);
                reference.insert(key, value);
            }
            Command::Delete { key } => {
                assert_eq!(found, None);
                reference.remove(&key);
            }
            Command::Get { key } => {
                assert_eq!(found, reference.get(&key).copied());
            }
        }
        if let Some(columns) = kvs.device_columns() {
            let stats = kvs.finish_compaction(run_device(&columns), Duration::ZERO).unwrap();
            assert_eq!(stats.id, compactions);
            compactions += 1;
        }
    }

    assert!(compactions > 100);
    for key in 0..97 {
        assert_eq!(kvs.get(key), reference.get(&key).copied());
    }
}
