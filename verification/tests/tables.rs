use lsm_compaction::{Entry, SsTable};

#[test]
fn entries_are_puts_and_deletes() {
    assert_eq!(Entry::put(1, 2, 3), Entry { key: 1, seq: 2, value: Some(3) });
    assert_eq!(Entry::delete(1, 2), Entry { key: 1, seq: 2, value: None });
}

#[test]
fn a_table_is_sorted_by_key_and_sequence_number() {
    let table = SsTable::new(vec![
        Entry::put(2, 1, 20),
        Entry::put(1, 5, 12),
        Entry::delete(1, 3),
        Entry::put(0, 9, 1),
    ]);
    assert_eq!(
        table.entries(),
        &[
            Entry::put(0, 9, 1),
            Entry::delete(1, 3),
            Entry::put(1, 5, 12),
            Entry::put(2, 1, 20),
        ]
    );
    assert_eq!(table.len(), 4);
    assert!(!table.is_empty());
}

#[test]
fn equal_versions_keep_their_order() {
    let table = SsTable::new(vec![
        Entry::put(1, 5, 3),
        Entry::put(1, 5, 1),
        Entry::put(0, 7, 0),
        Entry::put(1, 5, 2),
    ]);
    assert_eq!(
        table.entries(),
        &[
            Entry::put(0, 7, 0),
            Entry::put(1, 5, 3),
            Entry::put(1, 5, 1),
            Entry::put(1, 5, 2),
        ]
    );
    assert_eq!(table.get(1), Some(Some(3)));
}

#[test]
fn a_lookup_tells_absent_deleted_and_present_apart() {
    let table = SsTable::new(vec![
        Entry::put(1, 0, 10),
        Entry::put(3, 1, 30),
        Entry::put(1, 2, 11),
        Entry::delete(3, 4),
        Entry::put(5, 3, 50),
    ]);
    assert_eq!(table.get(0), None);
    assert_eq!(table.get(1), Some(Some(11)));
    assert_eq!(table.get(2), None);
    assert_eq!(table.get(3), Some(None));
    assert_eq!(table.get(4), None);
    assert_eq!(table.get(5), Some(Some(50)));
    assert_eq!(table.get(u32::MAX), None);
}

#[test]
fn the_empty_table() {
    let table = SsTable::default();
    assert!(table.is_empty());
    assert_eq!(table.len(), 0);
    assert_eq!(table.get(0), None);
    assert_eq!(table, SsTable::new(vec![]));
}

#[test]
fn a_copy_of_a_table_is_equal() {
    let table = SsTable::new(vec![Entry::put(2, 0, 1), Entry::delete(1, 1)]);
    assert_eq!(table.clone(), table);
}
