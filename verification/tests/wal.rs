use draft_kv::wal::{Log, LogEntry};

fn same_entry(a: &LogEntry, b: &LogEntry) -> bool {
    a.entry_type == b.entry_type && a.key == b.key && a.value == b.value && a.seq_num == b.seq_num
}

#[test]
fn put_record_bytes() {
    let entry = LogEntry::new(0, b"ab", b"xyz", 7);
    let mut want = vec![0u8];
    want.extend(vec![2u8, 0, 0, 0, 0, 0, 0, 0]);
    want.extend(b"ab".to_vec());
    want.extend(vec![3u8, 0, 0, 0, 0, 0, 0, 0]);
    want.extend(b"xyz".to_vec());
    want.extend(vec![7u8, 0, 0, 0, 0, 0, 0, 0]);
    assert_eq!(entry.encode(), want);
}

#[test]
fn marker_record_bytes() {
    for t in 4u8..=6 {
        let entry = LogEntry::new(t, b"", b"", 0x0102);
        assert_eq!(entry.encode(), vec![t, 2, 1, 0, 0, 0, 0, 0, 0]);
    }
}

#[test]
fn marker_record_leaves_key_and_value_out() {
    let entry = LogEntry::new(5, b"ignored", b"too", 9);
    assert_eq!(entry.encode(), vec![5u8, 9, 0, 0, 0, 0, 0, 0, 0]);
}

#[test]
fn all_seven_kinds_round_trip() {
    let entries = vec![
        LogEntry::new(0, b"k0", b"v0", 1),
        LogEntry::new(1, b"k1", b"", 2),
        LogEntry::new(2, b"k2", b"v2", 3),
        LogEntry::new(3, b"k3", b"", 3),
        LogEntry::new(4, b"", b"", 3),
        LogEntry::new(5, b"", b"", 3),
        LogEntry::new(6, b"", b"", 4),
    ];
    for entry in &entries {
        let bytes = entry.encode();
        let mut pos: usize = 0;
        let back = LogEntry::decode(&bytes, &mut pos).unwrap();
        assert_eq!(pos, bytes.len());
        assert!(same_entry(entry, &back));
    }
}

#[test]
fn records_with_empty_and_long_fields_round_trip() {
    let long_key = vec![b'k'; 300];
    let long_value = vec![0xabu8; 70000];
    let entries = vec![
        LogEntry::new(0, b"", b"", 0),
        LogEntry::new(0, &long_key, &long_value, u64::MAX),
        LogEntry::new(2, b"", &long_value, 1 << 40),
    ];
    for entry in &entries {
        let bytes = entry.encode();
        let mut pos: usize = 0;
        let back = LogEntry::decode(&bytes, &mut pos).unwrap();
        assert_eq!(pos, bytes.len());
        assert!(same_entry(entry, &back));
    }
}

#[test]
fn decode_moves_past_one_record() {
    let mut bytes = LogEntry::new(0, b"a", b"1", 1).encode();
    let first_len = bytes.len();
    bytes.extend(LogEntry::new(4, b"", b"", 2).encode());
    let mut pos: usize = 0;
    let first = LogEntry::decode(&bytes, &mut pos).unwrap();
    assert_eq!(pos, first_len);
    assert_eq!(first.entry_type, 0);
    let second = LogEntry::decode(&bytes, &mut pos).unwrap();
    assert_eq!(pos, bytes.len());
    assert_eq!(second.entry_type, 4);
    assert_eq!(second.seq_num, 2);
    assert!(LogEntry::decode(&bytes, &mut pos).is_none());
    assert_eq!(pos, bytes.len());
}

#[test]
fn decode_rejects_unknown_types() {
    for t in 7u8..=255 {
        let mut bytes = vec![t];
        bytes.extend(vec![0u8; 40]);
        let mut pos: usize = 0;
        assert!(LogEntry::decode(&bytes, &mut pos).is_none());
        assert_eq!(pos, 0);
    }
}

#[test]
fn decode_rejects_cut_records() {
    let whole = LogEntry::new(0, b"key", b"value", 77).encode();
    for cut in 0..whole.len() {
        let mut pos: usize = 0;
        assert!(LogEntry::decode(&whole[..cut], &mut pos).is_none());
        assert_eq!(pos, 0);
    }
    let marker = LogEntry::new(5, b"", b"", 77).encode();
    for cut in 0..marker.len() {
        let mut pos: usize = 0;
        assert!(LogEntry::decode(&marker[..cut], &mut pos).is_none());
    }
}

#[test]
fn decode_rejects_lengths_behind_the_end() {
    let mut bytes = vec![0u8];
    bytes.extend(vec![0xffu8; 8]);
    bytes.extend(vec![0u8; 64]);
    let mut pos: usize = 0;
    assert!(LogEntry::decode(&bytes, &mut pos).is_none());
    let mut bytes = vec![0u8];
    bytes.extend(vec![1u8, 0, 0, 0, 0, 0, 0, 0]);
    bytes.push(b'k');
    bytes.extend(vec![0xffu8; 8]);
    bytes.extend(vec![0u8; 64]);
    let mut pos: usize = 0;
    assert!(LogEntry::decode(&bytes, &mut pos).is_none());
}

#[test]
fn log_collects_what_is_written() {
    let mut log = Log::open(12);
    assert_eq!(log.get_num(), 12);
    assert_eq!(log.take_pending(), Vec::<u8>::new());
    let a = LogEntry::new(0, b"a", b"1", 1);
    let b = LogEntry::new(1, b"a", b"", 2);
    let mut want = a.encode();
    want.extend(b.encode());
    log.write(a);
    log.write(b);
    assert_eq!(log.take_pending(), want);
    assert_eq!(log.take_pending(), Vec::<u8>::new());
    assert_eq!(log.get_num(), 12);
}

#[test]
fn log_reads_back_what_was_written() {
    let entries = vec![
        LogEntry::new(0, b"a", b"1", 1),
        LogEntry::new(4, b"", b"", 2),
        LogEntry::new(2, b"b", b"2", 2),
        LogEntry::new(3, b"a", b"", 2),
        LogEntry::new(5, b"", b"", 2),
        LogEntry::new(1, b"b", b"", 3),
        LogEntry::new(6, b"", b"", 4),
    ];
    let mut log = Log::open(1);
    for e in &entries {
        log.write(e.duplicate());
    }
    let bytes = log.take_pending();
    let back = Log::read(&bytes).unwrap();
    assert_eq!(back.len(), entries.len());
    for (a, b) in entries.iter().zip(back.iter()) {
        assert!(same_entry(a, b));
    }
}

#[test]
fn log_read_of_nothing_is_empty() {
    assert_eq!(Log::read(&[]).unwrap().len(), 0);
}

#[test]
fn log_read_rejects_a_cut_tail() {
    let mut bytes = LogEntry::new(0, b"a", b"1", 1).encode();
    bytes.extend(LogEntry::new(0, b"b", b"2", 2).encode());
    for cut in 1..bytes.len() {
        let first_len = LogEntry::new(0, b"a", b"1", 1).encode().len();
        if cut == first_len {
            assert_eq!(Log::read(&bytes[..cut]).unwrap().len(), 1);
        } else {
            assert!(Log::read(&bytes[..cut]).is_none());
        }
    }
    bytes.push(9);
    assert!(Log::read(&bytes).is_none());
}
