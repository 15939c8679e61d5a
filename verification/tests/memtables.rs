use draft_kv::memtable::MemTable;
use draft_kv::wal::{Log, LogEntry};
use std::collections::HashMap;

fn versions(table: &mut MemTable) -> Vec<(Vec<u8>, u64, u8, Vec<u8>)> {
    table
        .take()
        .iter()
        .map(|(k, v)| (k.get_user_key().to_vec(), k.get_seq_num(), k.get_type(), v.clone()))
        .collect()
}

#[test]
fn a_new_table_holds_nothing() {
    let mut table = MemTable::new();
    assert_eq!(table.get_size(), 0);
    assert_eq!(table.get_log_num(), None);
    assert_eq!(table.search(b"a", 100), None);
    assert_eq!(table.take().len(), 0);
    assert!(table.take_logged().is_none());
}

#[test]
fn search_finds_what_was_inserted() {
    let mut table = MemTable::new();
    table.insert_inner(b"a", b"1", 1, false);
    table.insert_inner(b"b", b"2", 2, false);
    assert_eq!(table.search(b"a", 2), Some(Some(b"1".to_vec())));
    assert_eq!(table.search(b"b", 2), Some(Some(b"2".to_vec())));
    assert_eq!(table.search(b"c", 2), None);
    assert_eq!(table.search(b"", 2), None);
    assert_eq!(table.search(b"ab", 2), None);
}

#[test]
fn search_respects_the_snapshot() {
    let mut table = MemTable::new();
    table.insert_inner(b"k", b"v1", 3, false);
    table.insert_inner(b"k", b"v2", 7, false);
    table.delete_inner(b"k", 9, false);
    table.insert_inner(b"k", b"v3", 12, true);
    assert_eq!(table.search(b"k", 2), None);
    assert_eq!(table.search(b"k", 3), Some(Some(b"v1".to_vec())));
    assert_eq!(table.search(b"k", 6), Some(Some(b"v1".to_vec())));
    assert_eq!(table.search(b"k", 7), Some(Some(b"v2".to_vec())));
    assert_eq!(table.search(b"k", 8), Some(Some(b"v2".to_vec())));
    assert_eq!(table.search(b"k", 9), Some(None));
    assert_eq!(table.search(b"k", 11), Some(None));
    assert_eq!(table.search(b"k", 12), Some(Some(b"v3".to_vec())));
    assert_eq!(table.search(b"k", u64::MAX >> 8), Some(Some(b"v3".to_vec())));
}

#[test]
fn search_tells_keys_apart_that_start_alike() {
    let mut table = MemTable::new();
    table.insert_inner(b"a", b"short", 5, false);
    table.insert_inner(b"ab", b"long", 1, false);
    table.insert_inner(b"b", b"other", 9, false);
    assert_eq!(table.search(b"a", 4), None);
    assert_eq!(table.search(b"a", 5), Some(Some(b"short".to_vec())));
    assert_eq!(table.search(b"ab", 4), Some(Some(b"long".to_vec())));
    assert_eq!(table.search(b"ab", 0), None);
    assert_eq!(table.search(b"aa", 100), None);
    assert_eq!(table.search(b"b", 8), None);
}

#[test]
fn transaction_writes_are_found_like_plain_ones() {
    let mut table = MemTable::new();
    table.insert_inner(b"k", b"tx", 4, true);
    assert_eq!(table.search(b"k", 4), Some(Some(b"tx".to_vec())));
    table.delete_inner(b"k", 5, true);
    assert_eq!(table.search(b"k", 5), Some(None));
    assert_eq!(table.search(b"k", 4), Some(Some(b"tx".to_vec())));
}

#[test]
fn a_version_written_twice_keeps_its_type_and_takes_the_value() {
    let mut table = MemTable::new();
    table.insert_inner(b"k", b"first", 4, false);
    table.insert_inner(b"k", b"second", 4, true);
    assert_eq!(table.search(b"k", 4), Some(Some(b"second".to_vec())));
    table.delete_inner(b"k", 4, false);
    assert_eq!(table.search(b"k", 4), Some(Some(Vec::new())));
    assert_eq!(versions(&mut table), vec![(b"k".to_vec(), 4, 0, Vec::new())]);
    let mut table = MemTable::new();
    table.delete_inner(b"k", 4, false);
    table.insert_inner(b"k", b"late", 4, false);
    assert_eq!(table.search(b"k", 4), Some(None));
    assert_eq!(versions(&mut table), vec![(b"k".to_vec(), 4, 1, b"late".to_vec())]);
}

#[test]
fn the_size_counts_keys_and_values() {
    let mut table = MemTable::new();
    table.insert_inner(b"abc", b"12345", 1, false);
    assert_eq!(table.get_size(), 8 + 3 + 5);
    table.delete_inner(b"abc", 2, false);
    assert_eq!(table.get_size(), 8 + 3 + 5 + 8 + 3);
    table.insert_inner(b"", b"", 3, true);
    assert_eq!(table.get_size(), 8 + 3 + 5 + 8 + 3 + 8);
    table.insert_inner(b"abc", b"1", 1, false);
    assert_eq!(table.get_size(), 8 + 3 + 5 + 8 + 3 + 8 + 8 + 3 + 1);
}

#[test]
fn take_hands_out_the_versions_in_key_order() {
    let mut table = MemTable::new();
    table.insert_inner(b"b", b"b1", 1, false);
    table.insert_inner(b"a", b"a2", 2, false);
    table.delete_inner(b"b", 3, false);
    table.insert_inner(b"a", b"a4", 4, true);
    table.delete_inner(b"ab", 5, true);
    table.insert_inner(b"", b"e6", 6, false);
    assert_eq!(
        versions(&mut table),
        vec![
            (b"".to_vec(), 6, 0, b"e6".to_vec()),
            (b"a".to_vec(), 4, 2, b"a4".to_vec()),
            (b"a".to_vec(), 2, 0, b"a2".to_vec()),
            (b"ab".to_vec(), 5, 3, Vec::new()),
            (b"b".to_vec(), 3, 1, Vec::new()),
            (b"b".to_vec(), 1, 0, b"b1".to_vec()),
        ]
    );
    assert_eq!(table.take().len(), 0);
    assert_eq!(table.search(b"a", 100), None);
}

#[test]
fn take_frames_the_keys() {
    let mut table = MemTable::new();
    table.insert_inner(b"abc", b"v", 1, false);
    let entries = table.take();
    assert_eq!(entries.len(), 1);
    assert_eq!(entries[0].0.key_len, 11);
}

#[test]
fn writes_are_recorded_before_they_are_stored() {
    let mut table = MemTable::new();
    table.set_writer(3);
    assert_eq!(table.get_log_num(), Some(3));
    table.set_writer(4);
    assert_eq!(table.get_log_num(), Some(3));
    table.insert(b"a", b"1", 1, false);
    table.delete(b"a", 2, false);
    table.begin_tx(3);
    table.insert(b"b", b"2", 3, true);
    table.delete(b"c", 3, true);
    table.commit_tx(3);
    let mut want = LogEntry::new(0, b"a", b"1", 1).encode();
    want.extend(LogEntry::new(1, b"a", b"", 2).encode());
    want.extend(LogEntry::new(4, b"", b"", 3).encode());
    want.extend(LogEntry::new(2, b"b", b"2", 3).encode());
    want.extend(LogEntry::new(3, b"c", b"", 3).encode());
    want.extend(LogEntry::new(5, b"", b"", 3).encode());
    assert_eq!(table.take_logged(), Some((3, want)));
    assert_eq!(table.take_logged(), Some((3, Vec::new())));
    assert_eq!(table.search(b"a", 2), Some(None));
    assert_eq!(table.search(b"b", 3), Some(Some(b"2".to_vec())));
    assert_eq!(table.search(b"c", 3), Some(None));
    assert_eq!(table.remove_writer(), 3);
    assert_eq!(table.get_log_num(), None);
}

#[test]
fn recover_rebuilds_the_table_from_its_log() {
    let mut table = MemTable::new();
    table.set_writer(1);
    table.insert(b"a", b"1", 1, false);
    table.insert(b"b", b"2", 2, false);
    table.delete(b"a", 3, false);
    table.insert(b"c", b"3", 4, false);
    let (_, bytes) = table.take_logged().unwrap();
    let mut back = MemTable::new();
    let mut trans = HashMap::new();
    assert_eq!(back.recover(&bytes, 1, &mut trans), Some(4));
    assert_eq!(back.get_log_num(), Some(1));
    assert_eq!(back.get_size(), table.get_size());
    assert_eq!(versions(&mut back), versions(&mut table));
}

#[test]
fn recover_of_an_empty_log() {
    let mut table = MemTable::new();
    let mut trans = HashMap::new();
    assert_eq!(table.recover(&[], 9, &mut trans), Some(0));
    assert_eq!(table.get_log_num(), Some(9));
    assert_eq!(table.take().len(), 0);
}

#[test]
fn recover_applies_committed_transactions_only() {
    let records = vec![
        LogEntry::new(0, b"plain", b"p", 1),
        LogEntry::new(4, b"", b"", 2),
        LogEntry::new(2, b"kept", b"k", 2),
        LogEntry::new(3, b"plain", b"", 2),
        LogEntry::new(4, b"", b"", 3),
        LogEntry::new(2, b"aborted", b"a", 3),
        LogEntry::new(5, b"", b"", 2),
        LogEntry::new(6, b"", b"", 3),
        LogEntry::new(4, b"", b"", 4),
        LogEntry::new(2, b"open", b"o", 4),
    ];
    let mut log = Log::open(1);
    for r in records {
        log.write(r);
    }
    let bytes = log.take_pending();
    let mut table = MemTable::new();
    let mut trans = HashMap::new();
    assert_eq!(table.recover(&bytes, 1, &mut trans), Some(4));
    assert_eq!(table.search(b"plain", 1), Some(Some(b"p".to_vec())));
    assert_eq!(table.search(b"plain", 2), Some(None));
    assert_eq!(table.search(b"kept", 2), Some(Some(b"k".to_vec())));
    assert_eq!(table.search(b"aborted", 100), None);
    assert_eq!(table.search(b"open", 100), None);
    assert_eq!(trans.len(), 1);
    assert_eq!(trans.get(&4).unwrap().len(), 1);
    assert_eq!(
        versions(&mut table),
        vec![
            (b"kept".to_vec(), 2, 2, b"k".to_vec()),
            (b"plain".to_vec(), 2, 3, Vec::new()),
            (b"plain".to_vec(), 1, 0, b"p".to_vec()),
        ]
    );
}

#[test]
fn replay_notes_the_largest_sequence_number() {
    let mut table = MemTable::new();
    let mut trans = HashMap::new();
    let records = vec![
        LogEntry::new(0, b"a", b"1", 5),
        LogEntry::new(4, b"", b"", 9),
        LogEntry::new(1, b"a", b"", 7),
        LogEntry::new(6, b"", b"", 9),
    ];
    assert_eq!(table.replay(&records, &mut trans), Some(9));
    assert_eq!(table.get_log_num(), None);
}

#[test]
fn replay_rejects_records_without_their_transaction() {
    let mut table = MemTable::new();
    let mut trans = HashMap::new();
    assert_eq!(table.replay(&vec![LogEntry::new(2, b"a", b"1", 5)], &mut trans), None);
    let mut table = MemTable::new();
    let mut trans = HashMap::new();
    assert_eq!(table.replay(&vec![LogEntry::new(3, b"a", b"", 5)], &mut trans), None);
    let mut table = MemTable::new();
    let mut trans = HashMap::new();
    assert_eq!(table.replay(&vec![LogEntry::new(5, b"", b"", 5)], &mut trans), None);
    let mut table = MemTable::new();
    let mut trans = HashMap::new();
    assert_eq!(table.replay(&vec![LogEntry::new(7, b"", b"", 5)], &mut trans), None);
    let mut table = MemTable::new();
    let mut trans = HashMap::new();
    let other = vec![LogEntry::new(4, b"", b"", 5), LogEntry::new(2, b"a", b"1", 6)];
    assert_eq!(table.replay(&other, &mut trans), None);
    let mut table = MemTable::new();
    let mut trans = HashMap::new();
    assert_eq!(table.replay(&vec![LogEntry::new(6, b"", b"", 5)], &mut trans), Some(5));
}

#[test]
fn recover_rejects_a_damaged_log() {
    let mut bytes = LogEntry::new(0, b"a", b"1", 1).encode();
    bytes.push(200);
    let mut table = MemTable::new();
    let mut trans = HashMap::new();
    assert_eq!(table.recover(&bytes, 1, &mut trans), None);
    let whole = LogEntry::new(0, b"a", b"1", 1).encode();
    let mut table = MemTable::new();
    assert_eq!(table.recover(&whole[..whole.len() - 1], 1, &mut trans), None);
}

#[test]
fn transactions_may_span_two_logs() {
    let mut trans = HashMap::new();
    let mut first = MemTable::new();
    let begin = vec![LogEntry::new(4, b"", b"", 2), LogEntry::new(2, b"a", b"1", 2)];
    assert_eq!(first.replay(&begin, &mut trans), Some(2));
    assert_eq!(first.search(b"a", 9), None);
    let mut second = MemTable::new();
    let end = vec![LogEntry::new(2, b"b", b"2", 2), LogEntry::new(5, b"", b"", 2)];
    assert_eq!(second.replay(&end, &mut trans), Some(2));
    assert_eq!(second.search(b"a", 9), Some(Some(b"1".to_vec())));
    assert_eq!(second.search(b"b", 9), Some(Some(b"2".to_vec())));
    assert_eq!(trans.len(), 0);
}
