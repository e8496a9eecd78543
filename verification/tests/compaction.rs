use lsm_compaction::order::EntryLess;
use lsm_compaction::{compact, compact_with_kind, CompactionKind, CompactionWork, Entry, SsTable};

#[test]
fn compact_keeps_latest_put_and_drops_deleted_keys() {
    let tables = vec![
        SsTable::new(vec![
            Entry::put(1, 0, 10),
            Entry::put(2, 1, 20),
            Entry::put(1, 2, 11),
        ]),
        SsTable::new(vec![
            Entry::delete(2, 3),
            Entry::put(3, 4, 30),
            Entry::put(1, 5, 12),
        ]),
    ];

    let compacted = compact(tables);

    assert_eq!(
        compacted.entries(),
        &[Entry::put(1, 5, 12), Entry::put(3, 4, 30)]
    );
}

#[test]
fn compaction_of_nothing_is_empty() {
    assert!(compact(vec![]).is_empty());
    assert_eq!(compact(vec![SsTable::default()]), SsTable::default());
}

#[test]
fn compaction_goes_by_sequence_number_not_by_table() {
    let newer_first = vec![
        SsTable::new(vec![Entry::put(7, 9, 2)]),
        SsTable::new(vec![Entry::put(7, 3, 1)]),
    ];
    let older_first = vec![
        SsTable::new(vec![Entry::put(7, 3, 1)]),
        SsTable::new(vec![Entry::put(7, 9, 2)]),
    ];
    assert_eq!(compact(newer_first).entries(), &[Entry::put(7, 9, 2)]);
    assert_eq!(compact(older_first).entries(), &[Entry::put(7, 9, 2)]);
}

#[test]
fn compaction_keeps_the_first_of_equal_versions() {
    let tables = vec![
        SsTable::new(vec![Entry::put(7, 3, 1)]),
        SsTable::new(vec![Entry::put(7, 3, 2)]),
    ];
    assert_eq!(compact(tables).entries(), &[Entry::put(7, 3, 1)]);
}

#[test]
fn compaction_is_idempotent() {
    let once = compact(vec![SsTable::new(vec![
        Entry::put(u32::MAX, 4, 9),
        Entry::delete(0, 5),
        Entry::put(0, 2, 8),
        Entry::put(3, u32::MAX, 1),
    ])]);
    assert_eq!(
        once.entries(),
        &[Entry::put(3, u32::MAX, 1), Entry::put(u32::MAX, 4, 9)]
    );
    assert_eq!(compact(vec![once.clone()]), once);
}

#[test]
fn compaction_keeps_every_value() {
    let table = SsTable::new(vec![
        Entry::put(1, 0, 10),
        Entry::put(2, 1, 20),
        Entry::delete(1, 2),
        Entry::put(2, 3, 21),
        Entry::delete(3, 4),
        Entry::put(3, 5, 31),
    ]);
    let compacted = compact(vec![table.clone()]);
    for key in 0..5 {
        assert_eq!(compacted.get(key).flatten(), table.get(key).flatten());
    }
    assert!(compacted.len() <= table.len());
}

#[test]
fn the_cpu_compacts_at_once() {
    let tables = vec![SsTable::new(vec![Entry::put(1, 0, 10), Entry::put(1, 1, 11)])];
    match compact_with_kind(tables, CompactionKind::Cpu) {
        CompactionWork::Table(table) => assert_eq!(table.entries(), &[Entry::put(1, 1, 11)]),
        CompactionWork::Device(_) => panic!("no device is needed"),
    }
}

#[test]
fn a_gpu_is_not_asked_to_compact_nothing() {
    for tables in [vec![], vec![SsTable::default(), SsTable::default()]] {
        match compact_with_kind(tables, CompactionKind::Gpu) {
            CompactionWork::Table(table) => assert_eq!(table, SsTable::default()),
            CompactionWork::Device(_) => panic!("no device is needed"),
        }
    }
}

#[test]
fn the_order_of_a_compaction() {
    assert!(EntryLess::apply((1, 0), (2, 9)));
    assert!(!EntryLess::apply((2, 9), (1, 0)));
    assert!(EntryLess::apply((1, 9), (1, 0)));
    assert!(!EntryLess::apply((1, 0), (1, 9)));
    assert!(!EntryLess::apply((1, 0), (1, 0)));
}
