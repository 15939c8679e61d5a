use draft_kv::key::{InternalKey, LookUpKey};
use draft_kv::sst::{DataBlockEntry, Footer, IndexBlockEntry};
use draft_kv::table::Table;

fn pair(key: &[u8], seq_num: u64, op_type: u8, value: &[u8]) -> (LookUpKey, Vec<u8>) {
    (LookUpKey::new(InternalKey::new(key, seq_num, op_type)), value.to_vec())
}

fn plain(entries: &Vec<(LookUpKey, Vec<u8>)>) -> Vec<(Vec<u8>, u64, u8, Vec<u8>)> {
    entries
        .iter()
        .map(|(k, v)| (k.get_user_key().to_vec(), k.get_seq_num(), k.get_type(), v.clone()))
        .collect()
}

fn copy(entries: &Vec<(LookUpKey, Vec<u8>)>) -> Vec<(LookUpKey, Vec<u8>)> {
    entries.iter().map(|(k, v)| (k.duplicate(), v.clone())).collect()
}

fn sample() -> Vec<(LookUpKey, Vec<u8>)> {
    vec![
        pair(b"apple", 9, 0, b"red"),
        pair(b"apple", 4, 0, b"green"),
        pair(b"banana", 7, 1, b""),
        pair(b"banana", 2, 0, b"yellow"),
        pair(b"cherry", 5, 2, b"dark"),
        pair(b"damson", 6, 3, b""),
        pair(b"elder", 1, 0, b""),
    ]
}

#[test]
fn footer_bytes() {
    let footer = Footer {
        level: 1,
        min_key_addr: 2,
        max_key_addr: 3,
        last_seq_num: 4,
        meta_index_block_addr: 5,
        index_block_addr: 6,
        foot_addr: 99,
    };
    let bytes = footer.encode_to();
    assert_eq!(bytes.len(), 48);
    let mut want = Vec::new();
    for x in 1u8..=6 {
        want.push(x);
        want.extend(vec![0u8; 7]);
    }
    assert_eq!(bytes, want);
}

#[test]
fn footer_round_trip() {
    let mut file = vec![0xeeu8; 10];
    let footer = Footer {
        level: 3,
        min_key_addr: 1000,
        max_key_addr: 1 << 33,
        last_seq_num: u64::MAX,
        meta_index_block_addr: 77,
        index_block_addr: 77,
        foot_addr: 10,
    };
    file.extend(footer.encode_to());
    let back = Footer::decode_from(&file).unwrap();
    assert_eq!(back, footer);
    assert_eq!(back.foot_addr, 10);
}

#[test]
fn footer_needs_48_bytes() {
    assert!(Footer::decode_from(&[]).is_none());
    assert!(Footer::decode_from(&[0u8; 47]).is_none());
    let zero = Footer::decode_from(&[0u8; 48]).unwrap();
    assert_eq!(zero.foot_addr, 0);
    assert_eq!(zero.level, 0);
}

#[test]
fn data_block_entry_bytes() {
    let entry = DataBlockEntry::new(LookUpKey::new(InternalKey::new(b"a", 1, 0)), b"v".to_vec());
    let mut want = vec![9u8, 0, 0, 0, 0, 0, 0, 0, 97, 0, 1, 0, 0, 0, 0, 0, 0];
    want.extend(vec![1u8, 0, 0, 0, 0, 0, 0, 0]);
    want.push(b'v');
    assert_eq!(entry.encode_to(), want);
}

#[test]
fn data_block_entry_round_trip() {
    let entry = DataBlockEntry::new(LookUpKey::new(InternalKey::new(b"key", 12, 2)), b"value".to_vec());
    let mut bytes = vec![1u8, 2, 3];
    bytes.extend(entry.encode_to());
    bytes.extend(vec![4u8, 5]);
    let mut offset: u64 = 3;
    let back = DataBlockEntry::decode_from(&bytes, &mut offset).unwrap();
    assert_eq!(offset as usize, bytes.len() - 2);
    assert_eq!(back.look_up_key.get_user_key(), b"key");
    assert_eq!(back.look_up_key.get_seq_num(), 12);
    assert_eq!(back.look_up_key.get_type(), 2);
    assert_eq!(back.value, b"value".to_vec());
}

#[test]
fn data_block_entry_rejects_cut_bytes() {
    let bytes = DataBlockEntry::new(LookUpKey::new(InternalKey::new(b"key", 12, 0)), b"value".to_vec()).encode_to();
    for cut in 0..bytes.len() {
        let mut offset: u64 = 0;
        assert!(DataBlockEntry::decode_from(&bytes[..cut], &mut offset).is_none());
        assert_eq!(offset, 0);
    }
}

#[test]
fn index_block_entry_round_trip() {
    let entry = IndexBlockEntry::new(LookUpKey::new(InternalKey::new(b"max", 3, 1)), 4096, 512);
    let bytes = entry.encode_to();
    assert_eq!(bytes.len(), 8 + 3 + 8 + 16);
    assert_eq!(&bytes[bytes.len() - 16..bytes.len() - 8], &4096u64.to_le_bytes());
    assert_eq!(&bytes[bytes.len() - 8..], &512u64.to_le_bytes());
    let mut addr: u64 = 0;
    let back = IndexBlockEntry::decode_from(&bytes, &mut addr).unwrap();
    assert_eq!(addr as usize, bytes.len());
    assert_eq!(back.max_key.get_user_key(), b"max");
    assert_eq!(back.max_key.get_seq_num(), 3);
    assert_eq!(back.max_key.get_type(), 1);
    assert_eq!(back.offset, 4096);
    assert_eq!(back.length, 512);
    for cut in 0..bytes.len() {
        let mut addr: u64 = 0;
        assert!(IndexBlockEntry::decode_from(&bytes[..cut], &mut addr).is_none());
        assert_eq!(addr, 0);
    }
}

#[test]
fn table_of_one_entry_has_the_expected_layout() {
    let table = Table::new(5, vec![pair(b"a", 1, 0, b"v")], 0, 4096);
    assert_eq!(table.get_file_num(), 5);
    assert_eq!(table.get_level(), 0);
    assert_eq!(table.get_last_seq_num(), 1);
    assert_eq!(table.get_size(), 141);
    let data = table.get_data().to_vec();
    let footer = Footer::decode_from(&data).unwrap();
    assert_eq!(footer.level, 0);
    assert_eq!(footer.index_block_addr, 26);
    assert_eq!(footer.meta_index_block_addr, 26);
    assert_eq!(footer.min_key_addr, 26 + 33);
    assert_eq!(footer.max_key_addr, 26 + 33 + 17);
    assert_eq!(footer.foot_addr, 141 - 48);
    assert_eq!(footer.last_seq_num, 1);
    let mut addr: u64 = 26;
    let index = IndexBlockEntry::decode_from(&data, &mut addr).unwrap();
    assert_eq!(index.offset, 0);
    assert_eq!(index.length, 26);
    assert_eq!(index.max_key.get_user_key(), b"a");
    let mut offset: u64 = 0;
    let entry = DataBlockEntry::decode_from(&data, &mut offset).unwrap();
    assert_eq!(offset, 26);
    assert_eq!(entry.value, b"v".to_vec());
}

#[test]
fn content_gives_back_what_the_table_was_built_from() {
    for block_size in [0usize, 1, 30, 60, 100, 4096] {
        let entries = sample();
        let table = Table::new(1, copy(&entries), 2, block_size);
        assert_eq!(plain(&table.content()), plain(&entries));
        assert_eq!(table.get_level(), 2);
        assert_eq!(table.get_last_seq_num(), 9);
        assert!(table.get_min_key().same_as(&entries[0].0));
        assert!(table.get_max_key().same_as(&entries[6].0));
    }
}

#[test]
fn blocks_are_closed_once_they_exceed_the_block_size() {
    // each entry takes 8 + 1 + 8 + 8 + 1 = 26 bytes
    let entries = vec![
        pair(b"a", 1, 0, b"1"),
        pair(b"b", 2, 0, b"2"),
        pair(b"c", 3, 0, b"3"),
        pair(b"d", 4, 0, b"4"),
        pair(b"e", 5, 0, b"5"),
    ];
    // a block is closed with the entry that makes it longer than 30: after two entries
    let table = Table::new(1, copy(&entries), 0, 30);
    let data = table.get_data().to_vec();
    let footer = Footer::decode_from(&data).unwrap();
    assert_eq!(footer.index_block_addr, 5 * 26);
    let mut addr = footer.index_block_addr;
    let mut blocks = Vec::new();
    while addr < footer.min_key_addr {
        let e = IndexBlockEntry::decode_from(&data, &mut addr).unwrap();
        blocks.push((e.offset, e.length, e.max_key.get_user_key().to_vec()));
    }
    assert_eq!(
        blocks,
        vec![(0, 52, b"b".to_vec()), (52, 52, b"d".to_vec()), (104, 26, b"e".to_vec())]
    );
    // with a block size that no entry exceeds there is one block
    let table = Table::new(1, copy(&entries), 0, 4096);
    let data = table.get_data().to_vec();
    let footer = Footer::decode_from(&data).unwrap();
    let mut addr = footer.index_block_addr;
    let e = IndexBlockEntry::decode_from(&data, &mut addr).unwrap();
    assert_eq!((e.offset, e.length), (0, 130));
    assert_eq!(addr, footer.min_key_addr);
    // with block size 0 every entry is a block of its own
    let table = Table::new(1, copy(&entries), 0, 0);
    let data = table.get_data().to_vec();
    let footer = Footer::decode_from(&data).unwrap();
    let mut addr = footer.index_block_addr;
    let mut count = 0;
    while addr < footer.min_key_addr {
        let e = IndexBlockEntry::decode_from(&data, &mut addr).unwrap();
        assert_eq!(e.length, 26);
        assert_eq!(e.offset, 26 * count);
        count += 1;
    }
    assert_eq!(count, 5);
}

#[test]
fn search_finds_the_newest_version_not_newer_than_the_snapshot() {
    for block_size in [0usize, 30, 70, 4096] {
        let table = Table::new(1, sample(), 0, block_size);
        assert_eq!(table.search(b"apple", 100), Some(Some(b"red".to_vec())));
        assert_eq!(table.search(b"apple", 9), Some(Some(b"red".to_vec())));
        assert_eq!(table.search(b"apple", 8), Some(Some(b"green".to_vec())));
        assert_eq!(table.search(b"apple", 4), Some(Some(b"green".to_vec())));
        assert_eq!(table.search(b"apple", 3), None);
        assert_eq!(table.search(b"banana", 100), Some(None));
        assert_eq!(table.search(b"banana", 7), Some(None));
        assert_eq!(table.search(b"banana", 6), Some(Some(b"yellow".to_vec())));
        assert_eq!(table.search(b"banana", 1), None);
        assert_eq!(table.search(b"cherry", 5), Some(Some(b"dark".to_vec())));
        assert_eq!(table.search(b"cherry", 4), None);
        assert_eq!(table.search(b"damson", 6), Some(None));
        assert_eq!(table.search(b"elder", 1), Some(Some(Vec::new())));
        assert_eq!(table.search(b"elder", 0), None);
    }
}

#[test]
fn search_finds_nothing_for_keys_that_are_not_there() {
    for block_size in [0usize, 30, 4096] {
        let table = Table::new(1, sample(), 0, block_size);
        assert_eq!(table.search(b"", 100), None);
        assert_eq!(table.search(b"a", 100), None);
        assert_eq!(table.search(b"apples", 100), None);
        assert_eq!(table.search(b"b", 100), None);
        assert_eq!(table.search(b"cherrz", 100), None);
        assert_eq!(table.search(b"zebra", 100), None);
    }
}

#[test]
fn a_table_written_and_opened_again_is_the_same() {
    for block_size in [0usize, 30, 4096] {
        let entries = sample();
        let table = Table::new(8, copy(&entries), 3, block_size);
        let image = table.get_data().to_vec();
        let back = Table::open(8, image.clone()).unwrap();
        assert_eq!(back.get_file_num(), 8);
        assert_eq!(back.get_level(), 3);
        assert_eq!(back.get_last_seq_num(), 9);
        assert_eq!(back.get_size(), image.len() as u64);
        assert_eq!(plain(&back.content()), plain(&entries));
        assert_eq!(back.search(b"apple", 8), Some(Some(b"green".to_vec())));
        assert_eq!(back.search(b"banana", 9), Some(None));
        assert!(back.get_min_key().same_as(&entries[0].0));
        assert!(back.get_max_key().same_as(&entries[6].0));
    }
}

#[test]
fn open_rejects_what_is_no_table() {
    assert!(Table::open(1, Vec::new()).is_none());
    assert!(Table::open(1, vec![0u8; 47]).is_none());
    assert!(Table::open(1, vec![0u8; 48]).is_none());
    assert!(Table::open(1, vec![0xffu8; 200]).is_none());
    let image = Table::new(1, sample(), 0, 30).get_data().to_vec();
    for cut in 0..image.len() {
        assert!(Table::open(1, image[..cut].to_vec()).is_none());
    }
    let mut longer = image.clone();
    longer.push(0);
    assert!(Table::open(1, longer).is_none());
    assert!(Table::open(1, image).is_some());
}

#[test]
fn open_rejects_a_damaged_image() {
    let image = Table::new(1, sample(), 0, 30).get_data().to_vec();
    let footer = Footer::decode_from(&image).unwrap();
    // another smallest key
    let mut bad = image.clone();
    bad[footer.min_key_addr as usize + 8] ^= 1;
    assert!(Table::open(1, bad).is_none());
    // another largest key
    let mut bad = image.clone();
    bad[footer.max_key_addr as usize + 8] ^= 1;
    assert!(Table::open(1, bad).is_none());
    // an operation type that is none
    let mut bad = image.clone();
    bad[8 + 5] = 4;
    assert!(Table::open(1, bad).is_none());
    // a length in the first entry that is wrong
    let mut bad = image.clone();
    bad[0] = bad[0] + 1;
    assert!(Table::open(1, bad).is_none());
    // an index entry that points elsewhere
    let mut bad = image.clone();
    let at = footer.min_key_addr as usize - 16;
    bad[at] ^= 1;
    assert!(Table::open(1, bad).is_none());
}

#[test]
fn open_rejects_entries_out_of_order() {
    // the image of entries that do not ascend is written as it is, and not taken back
    let unsorted = vec![pair(b"b", 1, 0, b"1"), pair(b"a", 2, 0, b"2")];
    let image = Table::new(1, unsorted, 0, 4096).get_data().to_vec();
    assert!(Table::open(1, image).is_none());
    let twice = vec![pair(b"a", 1, 0, b"1"), pair(b"a", 1, 1, b"")];
    let image = Table::new(1, twice, 0, 4096).get_data().to_vec();
    assert!(Table::open(1, image).is_none());
    let older_first = vec![pair(b"a", 1, 0, b"1"), pair(b"a", 2, 0, b"2")];
    let image = Table::new(1, older_first, 0, 0).get_data().to_vec();
    assert!(Table::open(1, image).is_none());
}

#[test]
fn tables_compare_in_the_order_of_their_level() {
    let newer = Table::new(1, vec![pair(b"m", 9, 0, b"")], 0, 4096);
    let older = Table::new(2, vec![pair(b"a", 5, 0, b"")], 0, 4096);
    let as_old = Table::new(3, vec![pair(b"z", 5, 0, b"")], 0, 4096);
    assert!(newer < older);
    assert!(older > newer);
    assert!(older == as_old);
    assert!(newer != older);
    assert_eq!(older.partial_cmp(&as_old), Some(std::cmp::Ordering::Equal));
    let low = Table::new(4, vec![pair(b"a", 1, 0, b""), pair(b"c", 9, 0, b"")], 1, 4096);
    let high = Table::new(5, vec![pair(b"b", 7, 0, b"")], 1, 4096);
    let same_start = Table::new(6, vec![pair(b"a", 1, 1, b""), pair(b"b", 2, 0, b"")], 1, 4096);
    assert!(low < high);
    assert!(high > low);
    assert!(low == same_start);
    assert!(low != high);
    assert_eq!(high.partial_cmp(&low), Some(std::cmp::Ordering::Greater));
}
